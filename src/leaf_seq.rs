use vstd::prelude::*;

verus! {

/// The cells of a sequence of leaves, read in order.
pub open spec fn flat_cells<Cell, Attribute>(ls: Seq<(Seq<Cell>, Attribute)>) -> Seq<Cell>
    decreases ls.len(),
{
    if ls.len() == 0 {
        Seq::empty()
    } else {
        flat_cells(ls.drop_last()) + ls.last().0
    }
}

/// The attribute of every cell of a sequence of leaves, read in order.
pub open spec fn flat_attrs<Cell, Attribute>(ls: Seq<(Seq<Cell>, Attribute)>) -> Seq<Attribute>
    decreases ls.len(),
{
    if ls.len() == 0 {
        Seq::empty()
    } else {
        flat_attrs(ls.drop_last()) + Seq::new(ls.last().0.len(), |_i: int| ls.last().1)
    }
}

/// The position of the first cell of leaf `k`.
pub open spec fn leaf_start<Cell, Attribute>(ls: Seq<(Seq<Cell>, Attribute)>, k: int) -> nat {
    flat_cells(ls.take(k)).len()
}

/// Both flattenings have one entry per cell.
pub proof fn lemma_flat_lens<Cell, Attribute>(ls: Seq<(Seq<Cell>, Attribute)>)
    ensures
        flat_cells(ls).len() == flat_attrs(ls).len(),
    decreases ls.len(),
{
    if ls.len() > 0 {
        lemma_flat_lens(ls.drop_last());
    }
}

/// Flattening distributes over concatenation.
pub proof fn lemma_flat_append<Cell, Attribute>(
    a: Seq<(Seq<Cell>, Attribute)>,
    b: Seq<(Seq<Cell>, Attribute)>,
)
    ensures
        flat_cells(a + b) == flat_cells(a) + flat_cells(b),
        flat_attrs(a + b) == flat_attrs(a) + flat_attrs(b),
    decreases b.len(),
{
    if b.len() == 0 {
        assert(a + b =~= a);
        assert(flat_cells(b) =~= Seq::<Cell>::empty());
        assert(flat_attrs(b) =~= Seq::<Attribute>::empty());
        assert(flat_cells(a) + flat_cells(b) =~= flat_cells(a));
        assert(flat_attrs(a) + flat_attrs(b) =~= flat_attrs(a));
    } else {
        lemma_flat_append(a, b.drop_last());
        assert((a + b).drop_last() =~= a + b.drop_last());
        assert((a + b).last() == b.last());
        assert(flat_cells(a + b) =~= flat_cells(a) + flat_cells(b));
        assert(flat_attrs(a + b) =~= flat_attrs(a) + flat_attrs(b));
    }
}

/// A single leaf flattens to its own cells.
pub proof fn lemma_flat_single<Cell, Attribute>(x: (Seq<Cell>, Attribute))
    ensures
        flat_cells(seq![x]) == x.0,
        flat_attrs(seq![x]) == Seq::new(x.0.len(), |_i: int| x.1),
{
    let e = Seq::<(Seq<Cell>, Attribute)>::empty();
    assert(seq![x].drop_last() =~= e);
    assert(flat_cells(e) =~= Seq::<Cell>::empty());
    assert(flat_attrs(e) =~= Seq::<Attribute>::empty());
    assert(flat_cells(seq![x]) =~= x.0);
    assert(flat_attrs(seq![x]) =~= Seq::new(x.0.len(), |_i: int| x.1));
}

/// Flattening around one leaf: what comes before it, the leaf, what comes after.
pub proof fn lemma_flat_split<Cell, Attribute>(ls: Seq<(Seq<Cell>, Attribute)>, k: int)
    requires
        0 <= k < ls.len(),
    ensures
        flat_cells(ls) == flat_cells(ls.take(k)) + ls[k].0 + flat_cells(ls.skip(k + 1)),
        flat_attrs(ls) == flat_attrs(ls.take(k)) + Seq::new(ls[k].0.len(), |_i: int| ls[k].1)
            + flat_attrs(ls.skip(k + 1)),
        flat_cells(ls.take(k + 1)) == flat_cells(ls.take(k)) + ls[k].0,
        leaf_start(ls, k + 1) == leaf_start(ls, k) + ls[k].0.len(),
{
    assert(ls =~= ls.take(k) + seq![ls[k]] + ls.skip(k + 1));
    assert(ls.take(k + 1) =~= ls.take(k) + seq![ls[k]]);
    lemma_flat_append(ls.take(k) + seq![ls[k]], ls.skip(k + 1));
    lemma_flat_append(ls.take(k), seq![ls[k]]);
    lemma_flat_single(ls[k]);
}

/// Leaf starts never decrease.
pub proof fn lemma_leaf_start_mono<Cell, Attribute>(ls: Seq<(Seq<Cell>, Attribute)>, j: int, k: int)
    requires
        0 <= j <= k <= ls.len(),
    ensures
        leaf_start(ls, j) <= leaf_start(ls, k),
    decreases k - j,
{
    if j < k {
        lemma_leaf_start_mono(ls, j, k - 1);
        lemma_flat_split(ls, k - 1);
    }
}

/// The whole sequence ends where its last leaf ends.
pub proof fn lemma_leaf_start_end<Cell, Attribute>(ls: Seq<(Seq<Cell>, Attribute)>)
    ensures
        leaf_start(ls, ls.len() as int) == flat_cells(ls).len(),
{
    assert(ls.take(ls.len() as int) =~= ls);
}

/// Cell `j` of leaf `k` stands at `leaf_start(k) + j` in the flattened sequence.
pub proof fn lemma_flat_index<Cell, Attribute>(ls: Seq<(Seq<Cell>, Attribute)>, k: int, j: int)
    requires
        0 <= k < ls.len(),
        0 <= j < ls[k].0.len(),
    ensures
        leaf_start(ls, k) + j < flat_cells(ls).len(),
        flat_cells(ls)[leaf_start(ls, k) + j] == ls[k].0[j],
        flat_attrs(ls)[leaf_start(ls, k) + j] == ls[k].1,
{
    lemma_flat_split(ls, k);
    lemma_flat_lens(ls.take(k));
}


/// Splicing new cells into leaf `k` splices them into the flattened
/// sequence, where each new cell takes the leaf's attribute.
pub proof fn lemma_flat_splice<Cell, Attribute>(
    ls: Seq<(Seq<Cell>, Attribute)>,
    k: int,
    a: int,
    b: int,
    new_cells: Seq<Cell>,
)
    requires
        0 <= k < ls.len(),
        0 <= a <= b <= ls[k].0.len(),
    ensures
        ({
            let c = ls[k].0;
            let x = ls[k].1;
            let ls2 = ls.update(k, (c.subrange(0, a) + new_cells + c.subrange(b, c.len() as int), x));
            let p = leaf_start(ls, k) as int;
            &&& flat_cells(ls2) == flat_cells(ls).take(p + a) + new_cells + flat_cells(ls).skip(p + b)
            &&& flat_attrs(ls2) == flat_attrs(ls).take(p + a) + Seq::new(new_cells.len(), |_i: int| x)
                + flat_attrs(ls).skip(p + b)
            &&& leaf_start(ls2, k) == leaf_start(ls, k)
            &&& flat_cells(ls).len() == flat_attrs(ls).len()
            &&& p + b <= flat_cells(ls).len()
        }),
{
    let c = ls[k].0;
    let x = ls[k].1;
    let nc = c.subrange(0, a) + new_cells + c.subrange(b, c.len() as int);
    let ls2 = ls.update(k, (nc, x));
    lemma_flat_split(ls, k);
    lemma_flat_split(ls2, k);
    assert(ls2.take(k) =~= ls.take(k));
    assert(ls2.skip(k + 1) =~= ls.skip(k + 1));
    lemma_flat_lens(ls.take(k));
    lemma_flat_lens(ls);
    let f = flat_cells(ls.take(k));
    let g = flat_cells(ls.skip(k + 1));
    let fa = flat_attrs(ls.take(k));
    let ga = flat_attrs(ls.skip(k + 1));
    let p = f.len() as int;
    assert((f + c + g).take(p + a) =~= f + c.subrange(0, a));
    assert((f + c + g).skip(p + b) =~= c.subrange(b, c.len() as int) + g);
    assert(flat_cells(ls2) =~= (f + c + g).take(p + a) + new_cells + (f + c + g).skip(p + b));
    let ca = Seq::new(c.len(), |_i: int| x);
    assert((fa + ca + ga).take(p + a) =~= fa + Seq::new(a as nat, |_i: int| x));
    assert((fa + ca + ga).skip(p + b) =~= Seq::new((c.len() - b) as nat, |_i: int| x) + ga);
    assert(flat_attrs(ls2) =~= (fa + ca + ga).take(p + a) + Seq::new(new_cells.len(), |_i: int| x)
        + (fa + ca + ga).skip(p + b));
}

/// Removing an empty leaf changes neither flattening, and the leaf after it
/// starts where it started.
pub proof fn lemma_flat_remove_empty<Cell, Attribute>(ls: Seq<(Seq<Cell>, Attribute)>, k: int)
    requires
        0 <= k < ls.len(),
        ls[k].0.len() == 0,
    ensures
        flat_cells(ls.remove(k)) == flat_cells(ls),
        flat_attrs(ls.remove(k)) == flat_attrs(ls),
        leaf_start(ls.remove(k), k) == leaf_start(ls, k),
{
    let ls2 = ls.remove(k);
    assert(ls2 =~= ls.take(k) + ls.skip(k + 1));
    lemma_flat_split(ls, k);
    lemma_flat_append(ls.take(k), ls.skip(k + 1));
    assert(ls2.take(k) =~= ls.take(k));
    assert(ls[k].0 =~= Seq::<Cell>::empty());
    assert(flat_cells(ls) =~= flat_cells(ls.take(k)) + flat_cells(ls.skip(k + 1)));
    assert(flat_attrs(ls) =~= flat_attrs(ls.take(k)) + flat_attrs(ls.skip(k + 1)));
}

/// Dividing leaf `k` in two changes neither flattening; the second part
/// starts `t` cells after the first.
pub proof fn lemma_flat_divide<Cell, Attribute>(ls: Seq<(Seq<Cell>, Attribute)>, k: int, t: int)
    requires
        0 <= k < ls.len(),
        0 <= t <= ls[k].0.len(),
    ensures
        ({
            let c = ls[k].0;
            let x = ls[k].1;
            let ls2 = ls.take(k) + seq![(c.take(t), x), (c.skip(t), x)] + ls.skip(k + 1);
            &&& flat_cells(ls2) == flat_cells(ls)
            &&& flat_attrs(ls2) == flat_attrs(ls)
            &&& leaf_start(ls2, k) == leaf_start(ls, k)
            &&& leaf_start(ls2, k + 1) == leaf_start(ls, k) + t
            &&& leaf_start(ls2, k + 2) == leaf_start(ls, k + 1)
            &&& ls2.len() == ls.len() + 1
        }),
{
    let c = ls[k].0;
    let x = ls[k].1;
    let ls2 = ls.take(k) + seq![(c.take(t), x), (c.skip(t), x)] + ls.skip(k + 1);
    lemma_flat_split(ls, k);
    lemma_flat_split(ls2, k);
    lemma_flat_split(ls2, k + 1);
    assert(ls2.take(k) =~= ls.take(k));
    assert(ls2[k] == (c.take(t), x));
    assert(ls2[k + 1] == (c.skip(t), x));
    assert(ls2.skip(k + 2) =~= ls.skip(k + 1));
    assert(ls2.skip(k + 1) =~= seq![(c.skip(t), x)] + ls.skip(k + 1));
    lemma_flat_append(seq![(c.skip(t), x)], ls.skip(k + 1));
    lemma_flat_single((c.skip(t), x));
    assert(c.take(t) + c.skip(t) =~= c);
    let n = c.len();
    assert(Seq::new(t as nat, |_i: int| x) + Seq::new((n - t) as nat, |_i: int| x) =~= Seq::new(n, |_i: int| x));
    assert(flat_cells(ls2) =~= flat_cells(ls));
    assert(flat_attrs(ls2) =~= flat_attrs(ls));
}


/// The leaf in which an edit at position `pos` takes place: the first leaf
/// that ends at or after `pos` (the last leaf where none does). At the
/// boundary between two leaves, this is the one on the left.
pub open spec fn edit_leaf<Cell, Attribute>(ls: Seq<(Seq<Cell>, Attribute)>, pos: int) -> int {
    edit_leaf_from(ls, pos, 0)
}

/// `edit_leaf`, searching from leaf `k` onwards.
pub open spec fn edit_leaf_from<Cell, Attribute>(
    ls: Seq<(Seq<Cell>, Attribute)>,
    pos: int,
    k: int,
) -> int
    decreases ls.len() - k,
{
    if k + 1 >= ls.len() || k < 0 {
        k
    } else if pos <= leaf_start(ls, k + 1) {
        k
    } else {
        edit_leaf_from(ls, pos, k + 1)
    }
}

/// The edit leaf is the one that ends at or after `pos` and, unless it is
/// the first, starts before `pos`.
pub proof fn lemma_edit_leaf_unique<Cell, Attribute>(ls: Seq<(Seq<Cell>, Attribute)>, pos: int, k: int)
    requires
        0 <= k < ls.len(),
        pos <= leaf_start(ls, k + 1),
        k == 0 || pos > leaf_start(ls, k),
    ensures
        edit_leaf(ls, pos) == k,
{
    lemma_edit_leaf_from(ls, pos, k, 0);
}

proof fn lemma_edit_leaf_from<Cell, Attribute>(ls: Seq<(Seq<Cell>, Attribute)>, pos: int, k: int, j: int)
    requires
        0 <= j <= k < ls.len(),
        pos <= leaf_start(ls, k + 1),
        k == 0 || pos > leaf_start(ls, k),
    ensures
        edit_leaf_from(ls, pos, j) == k,
    decreases k - j,
{
    if j < k {
        lemma_leaf_start_mono(ls, j + 1, k);
        lemma_edit_leaf_from(ls, pos, k, j + 1);
    }
}


/// The first leaf after leaf `k` whose attribute differs from that of leaf
/// `k`, or the number of leaves where there is none.
pub open spec fn run_end<Cell, Attribute>(ls: Seq<(Seq<Cell>, Attribute)>, k: int) -> int {
    run_end_from(ls, k, k + 1)
}

/// `run_end`, searching from leaf `j` onwards.
pub open spec fn run_end_from<Cell, Attribute>(ls: Seq<(Seq<Cell>, Attribute)>, k: int, j: int) -> int
    decreases ls.len() - j,
{
    if j >= ls.len() || j < 0 {
        ls.len() as int
    } else if ls[j].1 != ls[k].1 {
        j
    } else {
        run_end_from(ls, k, j + 1)
    }
}

/// Where the run stops at leaf `j`, `run_end` is `j`.
pub proof fn lemma_run_end_at<Cell, Attribute>(ls: Seq<(Seq<Cell>, Attribute)>, k: int, i: int, j: int)
    requires
        0 <= k < i <= j <= ls.len(),
        forall|m: int| i <= m < j ==> #[trigger] ls[m].1 == ls[k].1,
        j == ls.len() || ls[j].1 != ls[k].1,
    ensures
        run_end_from(ls, k, i) == j,
    decreases j - i,
{
    if i < j {
        lemma_run_end_at(ls, k, i + 1, j);
    }
}


/// The attributes `attrs` with those of positions `s..e` set to `x`.
pub open spec fn with_attr<Attribute>(attrs: Seq<Attribute>, s: int, e: int, x: Attribute) -> Seq<Attribute> {
    Seq::new(attrs.len(), |q: int| if s <= q < e { x } else { attrs[q] })
}

/// Giving leaf `k` a new attribute sets the attribute of its cells.
pub proof fn lemma_flat_set_attr<Cell, Attribute>(ls: Seq<(Seq<Cell>, Attribute)>, k: int, x: Attribute)
    requires
        0 <= k < ls.len(),
    ensures
        ({
            let ls2 = ls.update(k, (ls[k].0, x));
            &&& flat_cells(ls2) == flat_cells(ls)
            &&& flat_attrs(ls2) == with_attr(
                flat_attrs(ls),
                leaf_start(ls, k) as int,
                leaf_start(ls, k + 1) as int,
                x,
            )
            &&& forall|j: int| 0 <= j <= ls.len() ==> #[trigger] leaf_start(ls2, j) == leaf_start(ls, j)
        }),
{
    let ls2 = ls.update(k, (ls[k].0, x));
    lemma_flat_split(ls, k);
    lemma_flat_split(ls2, k);
    assert(ls2.take(k) =~= ls.take(k));
    assert(ls2.skip(k + 1) =~= ls.skip(k + 1));
    lemma_flat_lens(ls.take(k));
    lemma_flat_lens(ls);
    lemma_flat_lens(ls2);
    assert(flat_attrs(ls2) =~= with_attr(flat_attrs(ls), leaf_start(ls, k) as int, leaf_start(ls, k + 1) as int, x));
    assert forall|j: int| 0 <= j <= ls.len() implies #[trigger] leaf_start(ls2, j) == leaf_start(ls, j) by {
        if j <= k {
            assert(ls2.take(j) =~= ls.take(j));
        } else {
            assert(ls2.take(j) =~= ls.take(k) + seq![ls2[k]] + ls.take(j).skip(k + 1));
            assert(ls.take(j) =~= ls.take(k) + seq![ls[k]] + ls.take(j).skip(k + 1));
            lemma_flat_append(ls.take(k) + seq![ls2[k]], ls.take(j).skip(k + 1));
            lemma_flat_append(ls.take(k) + seq![ls[k]], ls.take(j).skip(k + 1));
            lemma_flat_append(ls.take(k), seq![ls2[k]]);
            lemma_flat_append(ls.take(k), seq![ls[k]]);
            lemma_flat_single(ls2[k]);
            lemma_flat_single(ls[k]);
        }
    }
}

/// What setting the attribute of the cells `s..e` to `a` makes of a leaf
/// that starts at `st`: a leaf with another attribute that the range covers
/// in part is divided at the ends of the range, and the covered part takes
/// `a`; any other leaf stays as it is.
pub open spec fn attr_pieces<Cell, Attribute>(
    x: (Seq<Cell>, Attribute),
    st: int,
    s: int,
    e: int,
    a: Attribute,
) -> Seq<(Seq<Cell>, Attribute)> {
    let en = st + x.0.len();
    let lo = if s > st { s } else { st };
    let hi = if e < en { e } else { en };
    if x.1 == a || lo >= hi {
        seq![x]
    } else {
        let l = lo - st;
        let h = hi - st;
        (if l > 0 { seq![(x.0.take(l), x.1)] } else { Seq::empty() }) + seq![(x.0.subrange(l, h), a)] + (if h
            < x.0.len() { seq![(x.0.skip(h), x.1)] } else { Seq::empty() })
    }
}

/// The leaves after setting the attribute of the cells `s..e` to `a`.
pub open spec fn set_attr_leaves<Cell, Attribute>(
    ls: Seq<(Seq<Cell>, Attribute)>,
    s: int,
    e: int,
    a: Attribute,
) -> Seq<(Seq<Cell>, Attribute)>
    decreases ls.len(),
{
    if ls.len() == 0 {
        Seq::empty()
    } else {
        set_attr_leaves(ls.drop_last(), s, e, a) + attr_pieces(ls.last(), leaf_start(ls, ls.len() - 1) as int, s, e, a)
    }
}

/// One more leaf adds its pieces.
pub proof fn lemma_set_attr_step<Cell, Attribute>(
    ls: Seq<(Seq<Cell>, Attribute)>,
    j: int,
    s: int,
    e: int,
    a: Attribute,
)
    requires
        0 <= j < ls.len(),
    ensures
        set_attr_leaves(ls.take(j + 1), s, e, a) == set_attr_leaves(ls.take(j), s, e, a) + attr_pieces(
            ls[j],
            leaf_start(ls, j) as int,
            s,
            e,
            a,
        ),
{
    assert(ls.take(j + 1).drop_last() =~= ls.take(j));
    assert(ls.take(j + 1).take(j) =~= ls.take(j));
}

/// Leaves that the range misses stay as they are.
pub proof fn lemma_set_attr_untouched<Cell, Attribute>(
    ls: Seq<(Seq<Cell>, Attribute)>,
    j: int,
    k: int,
    s: int,
    e: int,
    a: Attribute,
)
    requires
        0 <= j <= k <= ls.len(),
        forall|i: int|
            j <= i < k ==> #[trigger] attr_pieces(ls[i], leaf_start(ls, i) as int, s, e, a) == seq![ls[i]],
    ensures
        set_attr_leaves(ls.take(k), s, e, a) == set_attr_leaves(ls.take(j), s, e, a) + ls.subrange(j, k),
    decreases k - j,
{
    if j < k {
        lemma_set_attr_untouched(ls, j, k - 1, s, e, a);
        lemma_set_attr_step(ls, k - 1, s, e, a);
        assert(ls.subrange(j, k) =~= ls.subrange(j, k - 1) + seq![ls[k - 1]]);
    } else {
        assert(ls.subrange(j, k) =~= Seq::<(Seq<Cell>, Attribute)>::empty());
    }
}

/// Leaves from `j` on that start at or after the end of the range (or all
/// of them, for an empty range) stay as they are.
pub proof fn lemma_set_attr_rest<Cell, Attribute>(
    ls: Seq<(Seq<Cell>, Attribute)>,
    j: int,
    s: int,
    e: int,
    a: Attribute,
)
    requires
        0 <= j <= ls.len(),
        leaf_start(ls, j) >= e || s >= e,
    ensures
        set_attr_leaves(ls, s, e, a) == set_attr_leaves(ls.take(j), s, e, a) + ls.skip(j),
{
    assert forall|i: int| j <= i < ls.len() implies #[trigger] attr_pieces(ls[i], leaf_start(ls, i) as int, s, e, a)
        == seq![ls[i]] by {
        lemma_leaf_start_mono(ls, j, i);
    }
    lemma_set_attr_untouched(ls, j, ls.len() as int, s, e, a);
    assert(ls.take(ls.len() as int) =~= ls);
    assert(ls.subrange(j, ls.len() as int) =~= ls.skip(j));
}

/// Finishing leaf `j`: the leaves so far, the pieces of leaf `j`, and the
/// leaves not yet reached.
pub proof fn lemma_set_attr_finish<Cell, Attribute>(
    ls: Seq<(Seq<Cell>, Attribute)>,
    j: int,
    s: int,
    e: int,
    a: Attribute,
    cur: Seq<(Seq<Cell>, Attribute)>,
)
    requires
        0 <= j < ls.len(),
        cur == set_attr_leaves(ls.take(j), s, e, a) + attr_pieces(ls[j], leaf_start(ls, j) as int, s, e, a)
            + ls.skip(j + 1),
    ensures
        cur == set_attr_leaves(ls.take(j + 1), s, e, a) + ls.skip(j + 1),
        leaf_start(ls, j + 1) == leaf_start(ls, j) + ls[j].0.len(),
{
    lemma_set_attr_step(ls, j, s, e, a);
    lemma_flat_split(ls, j);
}

/// The leaves `ts` with `r` cells taken from their front: leaves emptied on
/// the way are dropped, except a last leaf, which stays, empty.
pub open spec fn trim_front<Cell, Attribute>(ts: Seq<(Seq<Cell>, Attribute)>, r: int) -> Seq<(Seq<Cell>, Attribute)>
    decreases ts.len(),
{
    if r <= 0 || ts.len() == 0 {
        ts
    } else if r < ts[0].0.len() {
        seq![(ts[0].0.skip(r), ts[0].1)] + ts.skip(1)
    } else if ts.len() == 1 {
        seq![(Seq::<Cell>::empty(), ts[0].1)]
    } else {
        trim_front(ts.skip(1), r - ts[0].0.len())
    }
}

/// The leaves after an edit that splices `new_cells` into leaf `k` over its
/// cells `a..b` and takes `r` more cells from the leaves after it. Leaves
/// emptied by the edit are removed, unless nothing follows them.
pub open spec fn replaced_leaves<Cell, Attribute>(
    ls: Seq<(Seq<Cell>, Attribute)>,
    k: int,
    a: int,
    b: int,
    new_cells: Seq<Cell>,
    r: int,
) -> Seq<(Seq<Cell>, Attribute)> {
    let c = ls[k].0;
    let mid = (c.subrange(0, a) + new_cells + c.subrange(b, c.len() as int), ls[k].1);
    let rest = trim_front(ls.skip(k + 1), r);
    if mid.0.len() == 0 && rest.len() > 0 {
        ls.take(k) + rest
    } else {
        ls.take(k) + seq![mid] + rest
    }
}

/// Leaf `k` divided at `t`; both parts keep its attribute.
pub open spec fn divided<Cell, Attribute>(ls: Seq<(Seq<Cell>, Attribute)>, k: int, t: int) -> Seq<
    (Seq<Cell>, Attribute),
> {
    ls.take(k) + seq![(ls[k].0.take(t), ls[k].1), (ls[k].0.skip(t), ls[k].1)] + ls.skip(k + 1)
}

} // verus!
