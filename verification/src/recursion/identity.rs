//! What the four component identities of a limb say together: a product in `R_648`.
use super::algebra;
use super::algebra::{moved, total};
use super::carry;
use super::chain;
use super::chain::Product;
use super::chunk;
use super::encode;
use super::encode::Places;
use super::limbs;
use super::product;
use super::worth;
use super::{Blocks, Poly};
use crate::ntt::laws;
use crate::ntt::poly;
use vstd::prelude::*;

verus! {

/// Minus `Z` times an element of `S`.
pub open spec fn turned_back(x: Seq<int>) -> Seq<int> {
    Seq::new(162, |i: int| -chunk::reduced(chunk::raised(x, 1))[i])
}

/// The public entries of a limb: for component `k` of key row `i` the blocks of that component, and
/// behind them those of minus `Z` times it; then the blocks of the challenges.
pub open spec fn keys_stand(
    places: Places,
    public: Seq<Blocks>,
    key: Seq<Seq<int>>,
    challenges: Seq<Seq<int>>,
) -> bool {
    &&& key.len() == places.n
    &&& challenges.len() == places.r
    &&& forall|i: int| 0 <= i < key.len() ==> (#[trigger] key[i]).len() == 648
    &&& forall|j: int| 0 <= j < challenges.len() ==> (#[trigger] challenges[j]).len() == 162
    &&& forall|k: int, i: int|
        0 <= k < 4 && 0 <= i < places.n ==> worth::are_blocks(
            #[trigger] public[places.base_key + 2 * k * places.n + i],
            limbs::component(key[i], k),
        )
    &&& forall|k: int, i: int|
        0 <= k < 4 && 0 <= i < places.n ==> worth::are_blocks(
            #[trigger] public[places.base_key + (2 * k + 1) * places.n + i],
            turned_back(limbs::component(key[i], k)),
        )
    &&& forall|j: int|
        0 <= j < places.r ==> worth::are_blocks(
            #[trigger] public[places.challenges + j],
            challenges[j],
        )
}

/// The witness holds the chunks of the four components of every folded element, and of component `m`
/// of every residue.
pub open spec fn witness_stands(
    places: Places,
    m: int,
    w: Seq<Vec<Poly>>,
    folded: Seq<Seq<int>>,
    residues: Seq<Seq<int>>,
) -> bool {
    &&& folded.len() == places.n
    &&& residues.len() == places.r
    &&& forall|i: int| 0 <= i < folded.len() ==> (#[trigger] folded[i]).len() == 648
    &&& forall|j: int| 0 <= j < residues.len() ==> (#[trigger] residues[j]).len() == 162
    &&& forall|l: int, b: int, i: int|
        #![trigger places.folded_at(l, b, i)]
        0 <= l < 4 && 0 <= b < 3 && 0 <= i < places.n ==> chunk::shorts(
            w[places.folded@[3 * l + b].vector as int]@[places.folded@[3 * l + b].off + i
                * places.step]@,
        ) == chunk::chunk(limbs::component(folded[i], l), b)
    &&& forall|b: int, j: int|
        0 <= b < 3 && 0 <= j < places.r ==> chunk::shorts(
            (#[trigger] w[places.residues@[m] as int]@[b * places.r + j])@,
        ) == chunk::chunk(residues[j], b)
}

/// The three chunks of an element against `g` make up the product.
proof fn lemma_shares(g: Seq<int>, x: Seq<int>, i: int)
    requires
        g.len() == 162,
        x.len() == 162,
        0 <= i < 162,
    ensures
        worth::share(g, chunk::chunk(x, 0), 0, i) + worth::share(g, chunk::chunk(x, 1), 1, i)
            + worth::share(g, chunk::chunk(x, 2), 2, i) == chunk::reduced(poly::product(g, x))[i],
{
    algebra::lemma_product(g, x, i);
    let f = |t: int| x[t] * moved(g, t, i, g.len());
    let h = |k: int| worth::share(g, chunk::chunk(x, k), k, i);
    assert forall|k: int| 0 <= k < 3 implies #[trigger] h(k) == total(
        |u: int| f(54 * k + u),
        54,
    ) by {
        let y = chunk::chunk(x, k);
        algebra::lemma_same(
            |v: int| y[v] * moved(g, 54 * k + v, i, g.len()),
            |u: int| f(54 * k + u),
            54,
        );
    }
    algebra::lemma_grouped(f, h, 54, 3);
    algebra::lemma_same(f, |t: int| x[t] * moved(g, t, i, g.len()), 162);
    assert(total(h, 3) == total(h, 2) + h(2));
    assert(total(h, 2) == total(h, 1) + h(1));
    assert(total(h, 1) == total(h, 0) + h(0));
}

/// The multiplier that product `k` of component `m` meets.
spec fn met(
    places: Places,
    m: int,
    key: Seq<Seq<int>>,
    challenges: Seq<Seq<int>>,
    k: int,
) -> Seq<int> {
    let n = places.n as int;
    if k < 12 * n {
        product::multiplier(key[k % n], m, k / n / 3)
    } else {
        challenges[(k - 12 * n) % (places.r as int)]
    }
}

proof fn lemma_index(n: int, c: int, i: int)
    requires
        0 <= c,
        0 <= i < n,
    ensures
        (c * n + i) / n == c,
        (c * n + i) % n == i,
        0 <= c * n,
{
    assert(0 <= c * n) by (nonlinear_arith)
        requires
            0 <= c,
            0 < n,
    ;
    vstd::arithmetic::div_mod::lemma_fundamental_div_mod_converse(c * n + i, n, c, i);
}

/// A key product meets its multiplier.
proof fn lemma_key_product(
    places: Places,
    m: int,
    products: Seq<Product>,
    public: Seq<Blocks>,
    w: Seq<Vec<Poly>>,
    key: Seq<Seq<int>>,
    challenges: Seq<Seq<int>>,
    folded: Seq<Seq<int>>,
    residues: Seq<Seq<int>>,
    c: int,
    i: int,
)
    requires
        places.is_component(m, products),
        keys_stand(places, public, key, challenges),
        witness_stands(places, m, w, folded, residues),
        0 <= m < 4,
        0 <= c < 12,
        0 <= i < places.n,
    ensures
        worth::meets(
            products,
            public,
            w,
            c * places.n + i,
            product::multiplier(key[i], m, c / 3),
        ),
        chain::poly_at(w, products[c * places.n + i].at) == chunk::chunk(
            limbs::component(folded[i], c / 3),
            c % 3,
        ),
        products[c * places.n + i].chunk == c % 3,
{
    let k = c * places.n + i;
    let p = products[k];
    let (l, b) = (c / 3, c % 3);
    assert(places.is_key_product(products[c * places.n + i], m, l, b, i));
    let t = product::partner(m, l);
    assert(encode::key_part(m, l) == 2 * t + (if l > m {
        1int
    } else {
        0
    }));
    let g = product::multiplier(key[i], m, l);
    if l <= m {
        assert(p.blocks as int == places.base_key + 2 * t * places.n + i);
        assert(worth::are_blocks(
            public[places.base_key + 2 * t * places.n + i],
            limbs::component(key[i], t),
        ));
    } else {
        assert(p.blocks as int == places.base_key + (2 * t + 1) * places.n + i);
        assert(worth::are_blocks(
            public[places.base_key + (2 * t + 1) * places.n + i],
            turned_back(limbs::component(key[i], t)),
        ));
        assert(turned_back(limbs::component(key[i], t)) =~= g);
    }
    assert(g.len() == 162);
    let at = places.folded_at(l, b, i);
    assert(at == (p.at.vector as int, p.at.off as int));
    let x = chunk::chunk(limbs::component(folded[i], l), b);
    assert(chain::poly_at(w, p.at) =~= x);
}

/// A challenge product meets its challenge.
proof fn lemma_challenge_product(
    places: Places,
    m: int,
    products: Seq<Product>,
    public: Seq<Blocks>,
    w: Seq<Vec<Poly>>,
    key: Seq<Seq<int>>,
    challenges: Seq<Seq<int>>,
    folded: Seq<Seq<int>>,
    residues: Seq<Seq<int>>,
    b: int,
    j: int,
)
    requires
        places.is_component(m, products),
        keys_stand(places, public, key, challenges),
        witness_stands(places, m, w, folded, residues),
        0 <= m < 4,
        0 <= b < 3,
        0 <= j < places.r,
    ensures
        worth::meets(
            products,
            public,
            w,
            12 * places.n + (b * places.r + j),
            challenges[j],
        ),
        chain::poly_at(w, products[12 * places.n + (b * places.r + j)].at) == chunk::chunk(
            residues[j],
            b,
        ),
        products[12 * places.n + (b * places.r + j)].chunk == b,
{
    let p = products[12 * places.n + (b * places.r + j)];
    assert(places.is_challenge_product(
        products[12 * places.n + (b * places.r + j)],
        m,
        b,
        j,
    ));
    assert(worth::are_blocks(public[places.challenges + j], challenges[j]));
    assert(chunk::shorts(w[places.residues@[m] as int]@[b * places.r + j]@) == chunk::chunk(
        residues[j],
        b,
    ));
    assert(chain::poly_at(w, p.at) =~= chunk::chunk(residues[j], b));
}

/// What the chain of component `m` is worth: component `m` of `sum_i key_i folded_i` in `R_648`, plus the
/// sum of the challenges times the residues in `S`.
pub proof fn component_identity(
    places: Places,
    m: int,
    products: Seq<Product>,
    public: Seq<Blocks>,
    w: Seq<Vec<Poly>>,
    key: Seq<Seq<int>>,
    challenges: Seq<Seq<int>>,
    folded: Seq<Seq<int>>,
    residues: Seq<Seq<int>>,
    x: int,
)
    requires
        places.is_component(m, products),
        keys_stand(places, public, key, challenges),
        witness_stands(places, m, w, folded, residues),
        0 <= m < 4,
        0 <= x < 162,
    ensures
        carry::bounded(worth::lines(products, public, w, products.len())),
        carry::value_of(worth::lines(products, public, w, products.len()))[x] == total(
            |i: int|
                limbs::component(laws::reduce_phi(poly::product(key[i], folded[i])), m)[x],
            places.n as nat,
        ) + total(
            |j: int| chunk::reduced(poly::product(challenges[j], residues[j]))[x],
            places.r as nat,
        ),
{
    let (n, r) = (places.n as nat, places.r as nat);
    let len = products.len();
    let gs = Seq::new(len, |k: int| met(places, m, key, challenges, k));
    let s = |k: int|
        worth::share(gs[k], chain::poly_at(w, products[k].at), products[k].chunk as int, x);
    assert forall|k: int| 0 <= k < len implies #[trigger] worth::meets(
        products,
        public,
        w,
        k,
        gs[k],
    ) by {
        if k < 12 * n {
            let (c, i) = (k / n as int, k % n as int);
            vstd::arithmetic::div_mod::lemma_fundamental_div_mod(k, n as int);
            assert(n * c == c * n) by (nonlinear_arith);
            assert(0 <= c < 12) by (nonlinear_arith)
                requires
                    k == c * n + i,
                    0 <= i < n,
                    0 <= k < 12 * n,
            ;
            lemma_key_product(
                places,
                m,
                products,
                public,
                w,
                key,
                challenges,
                folded,
                residues,
                c,
                i,
            );
        } else {
            let k2 = k - 12 * n;
            let (b, j) = (k2 / r as int, k2 % r as int);
            vstd::arithmetic::div_mod::lemma_fundamental_div_mod(k2, r as int);
            assert(r * b == b * r) by (nonlinear_arith);
            assert(0 <= b < 3) by (nonlinear_arith)
                requires
                    k2 == b * r + j,
                    0 <= j < r,
                    0 <= k2 < 3 * r,
            ;
            lemma_challenge_product(
                places,
                m,
                products,
                public,
                w,
                key,
                challenges,
                folded,
                residues,
                b,
                j,
            );
        }
    }
    worth::value_of_products(products, public, w, gs, x, len);
    algebra::lemma_same(
        s,
        |k: int|
            worth::share(gs[k], chain::poly_at(w, products[k].at), products[k].chunk as int, x),
        len,
    );
    let t = |k: int| s(12 * n + k);
    algebra::lemma_split(s, t, 12 * n, 3 * r);
    // the keys
    let cell = |c: int, i: int|
        worth::share(
            product::multiplier(key[i], m, c / 3),
            chunk::chunk(limbs::component(folded[i], c / 3), c % 3),
            c % 3,
            x,
        );
    let rows = |c: int| total(|i: int| cell(c, i), n);
    assert forall|c: int| 0 <= c < 12 implies #[trigger] rows(c) == total(
        |u: int| s((n * c) + u),
        n,
    ) by {
        let own = |i: int| cell(c, i);
        let there = |u: int| s((n * c) + u);
        assert forall|i: int| 0 <= i < n implies #[trigger] own(i) == there(i) by {
            lemma_index(n as int, c, i);
            assert(n * c == c * n) by (nonlinear_arith);
            assert(c * n + i < 12 * n) by (nonlinear_arith)
                requires
                    0 <= c < 12,
                    0 <= i < n,
            ;
            lemma_key_product(
                places,
                m,
                products,
                public,
                w,
                key,
                challenges,
                folded,
                residues,
                c,
                i,
            );
        }
        algebra::lemma_same(own, there, n);
        algebra::lemma_same(own, |i: int| cell(c, i), n);
        algebra::lemma_same(there, |u: int| s((n * c) + u), n);
    }
    algebra::lemma_grouped(s, rows, n, 12);
    assert(n * 12 == 12 * n);
    let wanted = |i: int|
        limbs::component(laws::reduce_phi(poly::product(key[i], folded[i])), m)[x];
    assert forall|i: int| 0 <= i < n implies #[trigger] wanted(i) == total(
        |c: int| cell(c, i),
        12,
    ) by {
        lemma_twelve(key[i], folded[i], m, x, |c: int| cell(c, i));
    }
    algebra::lemma_swap(cell, rows, wanted, 12, n);
    // the challenges
    let part = |b: int, j: int|
        worth::share(challenges[j], chunk::chunk(residues[j], b), b, x);
    let sums = |b: int| total(|j: int| part(b, j), r);
    assert forall|b: int| 0 <= b < 3 implies #[trigger] sums(b) == total(
        |u: int| t((r * b) + u),
        r,
    ) by {
        let own = |j: int| part(b, j);
        let there = |u: int| t((r * b) + u);
        assert forall|j: int| 0 <= j < r implies #[trigger] own(j) == there(j) by {
            lemma_index(r as int, b, j);
            assert(r * b == b * r) by (nonlinear_arith);
            lemma_challenge_product(
                places,
                m,
                products,
                public,
                w,
                key,
                challenges,
                folded,
                residues,
                b,
                j,
            );
            assert(b * r + j < 3 * r) by (nonlinear_arith)
                requires
                    0 <= b < 3,
                    0 <= j < r,
            ;
        }
        algebra::lemma_same(own, there, r);
        algebra::lemma_same(own, |j: int| part(b, j), r);
        algebra::lemma_same(there, |u: int| t((r * b) + u), r);
    }
    algebra::lemma_grouped(t, sums, r, 3);
    assert(r * 3 == 3 * r);
    let paired = |j: int| chunk::reduced(poly::product(challenges[j], residues[j]))[x];
    assert forall|j: int| 0 <= j < r implies #[trigger] paired(j) == total(
        |b: int| part(b, j),
        3,
    ) by {
        lemma_shares(challenges[j], residues[j], x);
        let f = |b: int| part(b, j);
        assert(total(f, 3) == total(f, 2) + f(2));
        assert(total(f, 2) == total(f, 1) + f(1));
        assert(total(f, 1) == total(f, 0) + f(0));
    }
    algebra::lemma_swap(part, sums, paired, 3, r);
}

/// The twelve products of one key row and one folded element.
proof fn lemma_twelve(a: Seq<int>, v: Seq<int>, m: int, x: int, f: spec_fn(int) -> int)
    requires
        a.len() == 648,
        v.len() == 648,
        0 <= m < 4,
        0 <= x < 162,
        forall|c: int|
            0 <= c < 12 ==> #[trigger] f(c) == worth::share(
                product::multiplier(a, m, c / 3),
                chunk::chunk(limbs::component(v, c / 3), c % 3),
                c % 3,
                x,
            ),
    ensures
        total(f, 12) == limbs::component(laws::reduce_phi(poly::product(a, v)), m)[x],
{
    product::component_of_product(a, v, m, x);
    let g = |l: int|
        chunk::reduced(poly::product(product::multiplier(a, m, l), limbs::component(v, l)))[x];
    assert forall|l: int| 0 <= l < 4 implies #[trigger] g(l) == total(
        |u: int| f(3 * l + u),
        3,
    ) by {
        let h = |u: int| f(3 * l + u);
        lemma_shares(product::multiplier(a, m, l), limbs::component(v, l), x);
        assert(total(h, 3) == total(h, 2) + h(2));
        assert(total(h, 2) == total(h, 1) + h(1));
        assert(total(h, 1) == total(h, 0) + h(0));
        assert((3 * l) / 3 == l && (3 * l + 1) / 3 == l && (3 * l + 2) / 3 == l);
        assert(f(3 * l) == h(0) && f(3 * l + 1) == h(1) && f(3 * l + 2) == h(2));
    }
    algebra::lemma_grouped(f, g, 3, 4);
    assert(total(g, 4) == total(g, 3) + g(3));
    assert(total(g, 3) == total(g, 2) + g(2));
    assert(total(g, 2) == total(g, 1) + g(1));
    assert(total(g, 1) == total(g, 0) + g(0));
}

} // verus!
