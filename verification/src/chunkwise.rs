//! The chunked form computes the recurrence, in exact arithmetic.
use crate::algebra::{
    lemma_assoc, lemma_comm, lemma_dist, lemma_dist_sub, lemma_one, lemma_total_add,
    lemma_total_same, lemma_total_scale, lemma_total_sub, lemma_total_swap, recalled, total,
};
use crate::recurrence::{real_arith, rewritten};
use vstd::prelude::*;

verus! {

/// The inputs of a run of tokens in one value channel of one head: functions of the
/// token and, for decays, keys and queries, of the key channel.
pub struct Run {
    pub dk: nat,
    pub alpha: spec_fn(int, int) -> real,
    pub k: spec_fn(int, int) -> real,
    pub q: spec_fn(int, int) -> real,
    pub v: spec_fn(int) -> real,
    pub beta: spec_fn(int) -> real,
}

/// The two triangular solutions of a chunk.
pub struct Solution {
    pub u: spec_fn(int) -> real,
    pub w: spec_fn(int, int) -> real,
}

impl Run {
    /// Entry `i` of the state after token `t`, by the recurrence, from the state
    /// `before` it.
    pub open spec fn step(&self, before: spec_fn(int) -> real, t: int, i: int) -> real {
        rewritten(
            real_arith(),
            (self.alpha)(t, i) * before(i),
            (self.k)(t, i),
            (self.v)(t),
            (self.beta)(t),
            recalled(self.dk, before, |m: int| (self.alpha)(t, m), |m: int| (self.k)(t, m)),
        )
    }

    /// `state` holds the states of the recurrence after each of `n` tokens, and the first
    /// state at `-1`.
    pub open spec fn recurs(&self, n: int, state: spec_fn(int, int) -> real) -> bool {
        forall|t: int, i: int|
            0 <= t < n && 0 <= i < self.dk ==> #[trigger] self.steps_at(state, t, i)
    }

    /// Token `t` takes entry `i` one step.
    pub open spec fn steps_at(&self, state: spec_fn(int, int) -> real, t: int, i: int) -> bool {
        state(t, i) == self.step(|m: int| state(t - 1, m), t, i)
    }

    /// Output of token `t`: the query reads the state after it.
    pub open spec fn output(&self, state: spec_fn(int, int) -> real, t: int) -> real {
        total(self.dk, |i: int| (self.q)(t, i) * state(t, i))
    }

    /// What the decays after token `s` up to token `t` leave of key channel `i`.
    pub open spec fn kept(&self, s: int, t: int, i: int) -> real
        decreases t - s,
    {
        if t <= s {
            1real
        } else {
            self.kept(s, t - 1, i) * (self.alpha)(t, i)
        }
    }

    /// How much the key of token `t` finds of the key of token `s`, decayed on the way.
    pub open spec fn score(&self, t: int, s: int) -> real {
        total(self.dk, |i: int| (self.k)(t, i) * (self.kept(s, t, i) * (self.k)(s, i)))
    }

    /// How much the query of token `t` finds of the key of token `s`.
    pub open spec fn attention(&self, t: int, s: int) -> real {
        total(self.dk, |i: int| (self.q)(t, i) * (self.kept(s, t, i) * (self.k)(s, i)))
    }

    /// Row `t` of `(I + T') U = beta V`.
    pub open spec fn solves_u(&self, x: Solution, t: int) -> bool {
        (x.u)(t) == (self.beta)(t) * ((self.v)(t) - total(
            t as nat,
            |s: int| self.score(t, s) * (x.u)(s),
        ))
    }

    /// Row `t` of `(I + T') W = beta Gamma K`, in key channel `i`.
    pub open spec fn solves_w(&self, x: Solution, t: int, i: int) -> bool {
        (x.w)(t, i) == (self.beta)(t) * (self.kept(-1, t, i) * (self.k)(t, i) - total(
            t as nat,
            |s: int| self.score(t, s) * (x.w)(s, i),
        ))
    }

    /// `x` solves the triangular systems of a chunk of `n` tokens.
    pub open spec fn solves(&self, n: int, x: Solution) -> bool {
        &&& forall|t: int| 0 <= t < n ==> #[trigger] self.solves_u(x, t)
        &&& forall|t: int, i: int|
            0 <= t < n && 0 <= i < self.dk ==> #[trigger] self.solves_w(x, t, i)
    }

    /// `U - W S`: what token `t` adds along its key, for a chunk that starts from `first`.
    pub open spec fn added(&self, x: Solution, first: spec_fn(int) -> real, t: int) -> real {
        (x.u)(t) - total(self.dk, |i: int| (x.w)(t, i) * first(i))
    }

    /// Entry `i` of the state after `n` tokens, by the chunked form.
    pub open spec fn chunk_state(
        &self,
        x: Solution,
        first: spec_fn(int) -> real,
        n: int,
        i: int,
    ) -> real {
        self.kept(-1, n - 1, i) * first(i) + total(
            n as nat,
            |s: int| (self.kept(s, n - 1, i) * (self.k)(s, i)) * self.added(x, first, s),
        )
    }

    /// Output of token `t`, by the chunked form.
    pub open spec fn chunk_output(
        &self,
        x: Solution,
        first: spec_fn(int) -> real,
        t: int,
    ) -> real {
        total(self.dk, |i: int| (self.q)(t, i) * (self.kept(-1, t, i) * first(i))) + total(
            (t + 1) as nat,
            |s: int| self.attention(t, s) * self.added(x, first, s),
        )
    }

    /// What the key of token `t` finds in the chunked state before it, decayed once more.
    pub open spec fn found(&self, x: Solution, first: spec_fn(int) -> real, t: int) -> real {
        total(self.dk, |i: int| (self.k)(t, i) * (self.kept(-1, t, i) * first(i))) + total(
            t as nat,
            |s: int| self.score(t, s) * self.added(x, first, s),
        )
    }

    /// A vector `y` read against the chunked state after `n` tokens, decayed by `d`: `g`
    /// holds what that leaves of the keys and, at `-1`, of the first state.
    proof fn lemma_read(
        &self,
        x: Solution,
        first: spec_fn(int) -> real,
        y: spec_fn(int) -> real,
        n: int,
        d: spec_fn(int) -> real,
        g: spec_fn(int, int) -> real,
    )
        requires
            0 <= n,
            forall|s: int, i: int|
                -1 <= s < n && 0 <= i < self.dk ==> #[trigger] g(s, i) == self.kept(s, n - 1, i)
                    * d(i),
        ensures
            total(self.dk, |i: int| y(i) * (d(i) * self.chunk_state(x, first, n, i))) == total(
                self.dk,
                |i: int| y(i) * (g(-1, i) * first(i)),
            ) + total(
                n as nat,
                |s: int|
                    total(self.dk, |i: int| y(i) * (g(s, i) * (self.k)(s, i))) * self.added(
                        x,
                        first,
                        s,
                    ),
            ),
    {
        let a = |i: int| y(i) * (g(-1, i) * first(i));
        let term = |i: int, s: int| (y(i) * (g(s, i) * (self.k)(s, i))) * self.added(x, first, s);
        let b = |i: int| total(n as nat, |s: int| term(i, s));
        let whole = |i: int| y(i) * (d(i) * self.chunk_state(x, first, n, i));
        assert forall|i: int| 0 <= i < self.dk implies #[trigger] whole(i) == (|i: int|
            a(i) + b(i))(i) by {
            let di = d(i);
            let yi = y(i);
            let f = |s: int| (self.kept(s, n - 1, i) * (self.k)(s, i)) * self.added(x, first, s);
            let c = yi * di;
            lemma_total_scale(n as nat, c, f);
            let scaled = |s: int| c * f(s);
            let terms = |s: int| term(i, s);
            assert forall|s: int| 0 <= s < n implies #[trigger] scaled(s) == terms(s) by {
                assert(g(s, i) == self.kept(s, n - 1, i) * di);
                lemma_decayed_term(
                    yi,
                    di,
                    self.kept(s, n - 1, i),
                    (self.k)(s, i),
                    self.added(x, first, s),
                );
            }
            lemma_total_same(n as nat, scaled, terms);
            assert(g(-1, i) == self.kept(-1, n - 1, i) * di);
            lemma_decayed_entry(yi, di, self.kept(-1, n - 1, i), first(i), total(n as nat, f));
        }
        lemma_total_same(self.dk, whole, |i: int| a(i) + b(i));
        lemma_total_add(self.dk, a, b);
        lemma_total_swap(self.dk, n as nat, term);
        let outer = |s: int| total(self.dk, |i: int| term(i, s));
        let factored = |s: int|
            total(self.dk, |i: int| y(i) * (g(s, i) * (self.k)(s, i))) * self.added(x, first, s);
        assert forall|s: int| 0 <= s < n implies #[trigger] outer(s) == factored(s) by {
            let ad = self.added(x, first, s);
            let f = |i: int| y(i) * (g(s, i) * (self.k)(s, i));
            lemma_total_scale(self.dk, ad, f);
            let scaled = |i: int| ad * f(i);
            let terms = |i: int| term(i, s);
            assert forall|i: int| 0 <= i < self.dk implies #[trigger] scaled(i) == terms(i) by {
                lemma_comm(ad, f(i));
            }
            lemma_total_same(self.dk, scaled, terms);
            lemma_comm(ad, total(self.dk, f));
        }
        lemma_total_same(n as nat, outer, factored);
    }

    /// `W` read against the first state, row by row of its system.
    proof fn lemma_solution_read(&self, x: Solution, first: spec_fn(int) -> real, n: int, t: int)
        requires
            0 <= t < n,
            self.solves(n, x),
        ensures
            total(self.dk, |i: int| (x.w)(t, i) * first(i)) == (self.beta)(t) * (total(
                self.dk,
                |i: int| (self.k)(t, i) * (self.kept(-1, t, i) * first(i)),
            ) - total(
                t as nat,
                |s: int| self.score(t, s) * total(self.dk, |i: int| (x.w)(s, i) * first(i)),
            )),
    {
        let b = (self.beta)(t);
        let from_first = |i: int| (self.k)(t, i) * (self.kept(-1, t, i) * first(i));
        let term = |i: int, s: int| self.score(t, s) * ((x.w)(s, i) * first(i));
        let inner = |i: int| total(t as nat, |s: int| term(i, s));
        let read = |i: int| (x.w)(t, i) * first(i);
        let diff = |i: int| from_first(i) - inner(i);
        let scaled = |i: int| b * diff(i);
        assert forall|i: int| 0 <= i < self.dk implies #[trigger] read(i) == scaled(i) by {
            let fi = first(i);
            let sw = |s: int| self.score(t, s) * (x.w)(s, i);
            lemma_total_scale(t as nat, fi, sw);
            let scaled_sw = |s: int| fi * sw(s);
            let terms = |s: int| term(i, s);
            assert forall|s: int| 0 <= s < t implies #[trigger] scaled_sw(s) == terms(s) by {
                lemma_comm(fi, self.score(t, s) * (x.w)(s, i));
                lemma_assoc(self.score(t, s), (x.w)(s, i), fi);
            }
            lemma_total_same(t as nat, scaled_sw, terms);
            let tw = total(t as nat, sw);
            let kp = self.kept(-1, t, i);
            let ki = (self.k)(t, i);
            assert(self.solves_w(x, t, i));
            lemma_assoc(b, kp * ki - tw, fi);
            lemma_comm(kp * ki - tw, fi);
            lemma_dist_sub(fi, kp * ki, tw);
            lemma_comm(fi, kp * ki);
            lemma_comm(kp, ki);
            lemma_assoc(ki, kp, fi);
        }
        lemma_total_same(self.dk, read, scaled);
        lemma_total_scale(self.dk, b, diff);
        lemma_total_sub(self.dk, from_first, inner);
        lemma_total_swap(self.dk, t as nat, term);
        let outer = |s: int| total(self.dk, |i: int| term(i, s));
        let factored = |s: int|
            self.score(t, s) * total(self.dk, |i: int| (x.w)(s, i) * first(i));
        assert forall|s: int| 0 <= s < t implies #[trigger] outer(s) == factored(s) by {
            let f = |i: int| (x.w)(s, i) * first(i);
            lemma_total_scale(self.dk, self.score(t, s), f);
            lemma_total_same(self.dk, |i: int| self.score(t, s) * f(i), |i: int| term(i, s));
        }
        lemma_total_same(t as nat, outer, factored);
    }

    /// The solutions combine to the correction that the recurrence makes.
    proof fn lemma_added(&self, x: Solution, first: spec_fn(int) -> real, n: int, t: int)
        requires
            0 <= t < n,
            self.solves(n, x),
        ensures
            self.added(x, first, t) == (self.beta)(t) * ((self.v)(t) - self.found(x, first, t)),
    {
        self.lemma_solution_read(x, first, n, t);
        assert(self.solves_u(x, t));
        let su = |s: int| self.score(t, s) * (x.u)(s);
        let sw = |s: int| self.score(t, s) * total(self.dk, |i: int| (x.w)(s, i) * first(i));
        let sadd = |s: int| self.score(t, s) * self.added(x, first, s);
        let both = |s: int| su(s) - sw(s);
        lemma_total_sub(t as nat, su, sw);
        assert forall|s: int| 0 <= s < t implies #[trigger] both(s) == sadd(s) by {
            lemma_dist_sub(
                self.score(t, s),
                (x.u)(s),
                total(self.dk, |i: int| (x.w)(s, i) * first(i)),
            );
        }
        lemma_total_same(t as nat, both, sadd);
        let b = (self.beta)(t);
        let v = (self.v)(t);
        let p = total(t as nat, su);
        let y = total(t as nat, sw);
        let z = total(self.dk, |i: int| (self.k)(t, i) * (self.kept(-1, t, i) * first(i)));
        lemma_dist_sub(b, v - p, z - y);
        assert((v - p) - (z - y) == v - (z + (p - y)));
    }

    /// The states of the recurrence are those of the chunked form.
    proof fn lemma_chunk_state(
        &self,
        x: Solution,
        n: int,
        state: spec_fn(int, int) -> real,
        t: int,
    )
        requires
            -1 <= t < n,
            self.solves(n, x),
            self.recurs(n, state),
        ensures
            forall|i: int|
                0 <= i < self.dk ==> #[trigger] state(t, i) == self.chunk_state(
                    x,
                    |m: int| state(-1, m),
                    t + 1,
                    i,
                ),
        decreases t + 1,
    {
        let first = |m: int| state(-1, m);
        if t < 0 {
            assert forall|i: int| 0 <= i < self.dk implies #[trigger] state(t, i)
                == self.chunk_state(x, first, t + 1, i) by {
                let f = first(i);
                assert(self.kept(-1, -1, i) == 1real);
                lemma_one(f);
            }
        } else {
            self.lemma_chunk_state(x, n, state, t - 1);
            let before = |m: int| state(t - 1, m);
            let al = |m: int| (self.alpha)(t, m);
            let key = |m: int| (self.k)(t, m);
            let r = recalled(self.dk, before, al, key);
            let plain = |m: int| (al(m) * before(m)) * key(m);
            let turned = |m: int| key(m) * (al(m) * self.chunk_state(x, first, t, m));
            assert forall|m: int| 0 <= m < self.dk implies #[trigger] plain(m) == turned(m) by {
                assert(state(t - 1, m) == self.chunk_state(x, first, t, m));
                lemma_comm(al(m) * before(m), key(m));
            }
            lemma_total_same(self.dk, plain, turned);
            assert(r == total(self.dk, plain));
            let g = |s: int, i: int| self.kept(s, t, i);
            self.lemma_read(x, first, key, t, al, g);
            let by_score = |s: int|
                total(self.dk, |i: int| key(i) * (g(s, i) * (self.k)(s, i))) * self.added(
                    x,
                    first,
                    s,
                );
            let scored = |s: int| self.score(t, s) * self.added(x, first, s);
            assert forall|s: int| 0 <= s < t implies #[trigger] by_score(s) == scored(s) by {
                lemma_total_same(
                    self.dk,
                    |i: int| key(i) * (g(s, i) * (self.k)(s, i)),
                    |i: int| (self.k)(t, i) * (self.kept(s, t, i) * (self.k)(s, i)),
                );
            }
            lemma_total_same(t as nat, by_score, scored);
            lemma_total_same(
                self.dk,
                |i: int| key(i) * (g(-1, i) * first(i)),
                |i: int| (self.k)(t, i) * (self.kept(-1, t, i) * first(i)),
            );
            assert(r == self.found(x, first, t));
            self.lemma_added(x, first, n, t);
            assert forall|i: int| 0 <= i < self.dk implies #[trigger] state(t, i)
                == self.chunk_state(x, first, t + 1, i) by {
                assert(self.steps_at(state, t, i));
                assert(state(t - 1, i) == self.chunk_state(x, first, t, i));
                let ad = self.added(x, first, t);
                let a = al(i);
                let f = |s: int|
                    (self.kept(s, t - 1, i) * (self.k)(s, i)) * self.added(x, first, s);
                let h = |s: int|
                    (self.kept(s, t, i) * (self.k)(s, i)) * self.added(x, first, s);
                let scaled = |s: int| a * f(s);
                lemma_total_scale(t as nat, a, f);
                assert forall|s: int| 0 <= s < t implies #[trigger] scaled(s) == h(s) by {
                    lemma_kept_term(
                        a,
                        self.kept(s, t - 1, i),
                        (self.k)(s, i),
                        self.added(x, first, s),
                    );
                }
                lemma_total_same(t as nat, scaled, h);
                let k0 = self.kept(-1, t - 1, i);
                lemma_dist(a, k0 * first(i), total(t as nat, f));
                lemma_assoc(a, k0, first(i));
                lemma_comm(a, k0);
                assert(self.kept(t, t, i) == 1real);
                lemma_one((self.k)(t, i));
                lemma_correction(
                    a * before(i),
                    (self.k)(t, i),
                    (self.v)(t),
                    (self.beta)(t),
                    r,
                );
                assert(state(t, i) == a * before(i) + (self.k)(t, i) * ad);
                assert(total((t + 1) as nat, h) == total(t as nat, h) + h(t));
            }
        }
    }

    /// The outputs of the recurrence are those of the chunked form.
    proof fn lemma_chunk_output(
        &self,
        x: Solution,
        n: int,
        state: spec_fn(int, int) -> real,
        t: int,
    )
        requires
            0 <= t < n,
            self.solves(n, x),
            self.recurs(n, state),
        ensures
            self.output(state, t) == self.chunk_output(x, |m: int| state(-1, m), t),
    {
        let first = |m: int| state(-1, m);
        self.lemma_chunk_state(x, n, state, t);
        let query = |m: int| (self.q)(t, m);
        let d = |m: int| 1real;
        let g = |s: int, i: int| self.kept(s, t, i);
        assert forall|s: int, i: int| -1 <= s < t + 1 && 0 <= i < self.dk implies #[trigger] g(
            s,
            i,
        ) == self.kept(s, (t + 1) - 1, i) * d(i) by {
            lemma_one(self.kept(s, t, i));
            lemma_comm(self.kept(s, t, i), 1real);
        }
        self.lemma_read(x, first, query, t + 1, d, g);
        let plain = |i: int| (self.q)(t, i) * state(t, i);
        let read = |i: int| query(i) * (d(i) * self.chunk_state(x, first, t + 1, i));
        assert forall|i: int| 0 <= i < self.dk implies #[trigger] plain(i) == read(i) by {
            assert(state(t, i) == self.chunk_state(x, first, t + 1, i));
            lemma_one(state(t, i));
        }
        lemma_total_same(self.dk, plain, read);
        let by_score = |s: int|
            total(self.dk, |i: int| query(i) * (g(s, i) * (self.k)(s, i))) * self.added(
                x,
                first,
                s,
            );
        let scored = |s: int| self.attention(t, s) * self.added(x, first, s);
        assert forall|s: int| 0 <= s < t + 1 implies #[trigger] by_score(s) == scored(s) by {
            lemma_total_same(
                self.dk,
                |i: int| query(i) * (g(s, i) * (self.k)(s, i)),
                |i: int| (self.q)(t, i) * (self.kept(s, t, i) * (self.k)(s, i)),
            );
        }
        lemma_total_same((t + 1) as nat, by_score, scored);
        lemma_total_same(
            self.dk,
            |i: int| query(i) * (g(-1, i) * first(i)),
            |i: int| (self.q)(t, i) * (self.kept(-1, t, i) * first(i)),
        );
    }

    /// The run from token `lo` on.
    pub open spec fn from(&self, lo: int) -> Run {
        Run {
            dk: self.dk,
            alpha: |t: int, i: int| (self.alpha)(lo + t, i),
            k: |t: int, i: int| (self.k)(lo + t, i),
            q: |t: int, i: int| (self.q)(lo + t, i),
            v: |t: int| (self.v)(lo + t),
            beta: |t: int| (self.beta)(lo + t),
        }
    }

    /// `U` by forward substitution, up to token `n`.
    pub open spec fn rows_u(&self, n: nat) -> Seq<real>
        decreases n,
    {
        if n == 0 {
            Seq::empty()
        } else {
            let t = n - 1;
            let rows = self.rows_u((n - 1) as nat);
            rows.push(
                (self.beta)(t) * ((self.v)(t) - total(
                    t as nat,
                    |s: int| self.score(t, s) * rows[s],
                )),
            )
        }
    }

    /// Key channel `i` of `W` by forward substitution, up to token `n`.
    pub open spec fn rows_w(&self, n: nat, i: int) -> Seq<real>
        decreases n,
    {
        if n == 0 {
            Seq::empty()
        } else {
            let t = n - 1;
            let rows = self.rows_w((n - 1) as nat, i);
            rows.push(
                (self.beta)(t) * (self.kept(-1, t, i) * (self.k)(t, i) - total(
                    t as nat,
                    |s: int| self.score(t, s) * rows[s],
                )),
            )
        }
    }

    /// The triangular solutions of a chunk of `n` tokens.
    pub open spec fn solution(&self, n: nat) -> Solution {
        Solution { u: |t: int| self.rows_u(n)[t], w: |t: int, i: int| self.rows_w(n, i)[t] }
    }

    /// Later rows leave earlier ones alone.
    proof fn lemma_rows(&self, t: nat, n: nat, i: int)
        requires
            t <= n,
        ensures
            self.rows_u(n).len() == n,
            self.rows_w(n, i).len() == n,
            self.rows_u(n).take(t as int) == self.rows_u(t),
            self.rows_w(n, i).take(t as int) == self.rows_w(t, i),
        decreases n,
    {
        if n > 0 {
            self.lemma_rows(
                if t < n {
                    t
                } else {
                    (n - 1) as nat
                },
                (n - 1) as nat,
                i,
            );
        }
        if t < n {
            assert(self.rows_u(n).take(t as int) =~= self.rows_u((n - 1) as nat).take(t as int));
            assert(self.rows_w(n, i).take(t as int) =~= self.rows_w((n - 1) as nat, i).take(
                t as int,
            ));
        } else {
            assert(self.rows_u(n).take(t as int) =~= self.rows_u(t));
            assert(self.rows_w(n, i).take(t as int) =~= self.rows_w(t, i));
        }
    }

    /// The triangular systems of a chunk can always be solved.
    pub proof fn law_solvable(&self, n: nat)
        ensures
            self.solves(n as int, self.solution(n)),
    {
        let x = self.solution(n);
        assert forall|t: int| 0 <= t < n implies #[trigger] self.solves_u(x, t) by {
            self.lemma_rows(t as nat, n, 0);
            self.lemma_rows((t + 1) as nat, n, 0);
            self.lemma_rows(t as nat, t as nat, 0);
            let rows = self.rows_u(t as nat);
            assert(self.rows_u(n).take(t + 1)[t] == self.rows_u(n)[t]);
            assert forall|s: int| 0 <= s < t implies #[trigger] rows[s] == (x.u)(s) by {
                assert(self.rows_u(n).take(t)[s] == self.rows_u(n)[s]);
            }
            lemma_total_same(
                t as nat,
                |s: int| self.score(t, s) * rows[s],
                |s: int| self.score(t, s) * (x.u)(s),
            );
        }
        assert forall|t: int, i: int| 0 <= t < n && 0 <= i < self.dk implies #[trigger]
        self.solves_w(x, t, i) by {
            self.lemma_rows(t as nat, n, i);
            self.lemma_rows((t + 1) as nat, n, i);
            self.lemma_rows(t as nat, t as nat, i);
            let rows = self.rows_w(t as nat, i);
            assert(self.rows_w(n, i).take(t + 1)[t] == self.rows_w(n, i)[t]);
            assert forall|s: int| 0 <= s < t implies #[trigger] rows[s] == (x.w)(s, i) by {
                assert(self.rows_w(n, i).take(t)[s] == self.rows_w(n, i)[s]);
            }
            lemma_total_same(
                t as nat,
                |s: int| self.score(t, s) * rows[s],
                |s: int| self.score(t, s) * (x.w)(s, i),
            );
        }
    }

    /// The chunked form computes the recurrence, whatever the chunk: for a chunk of the
    /// tokens from `lo` up to `hi`, the triangular systems and the state before the chunk
    /// give the outputs of its tokens and the state after it.
    pub proof fn law_any_chunk(
        &self,
        n: int,
        state: spec_fn(int, int) -> real,
        lo: int,
        hi: int,
        x: Solution,
    )
        requires
            self.recurs(n, state),
            0 <= lo < hi <= n,
            self.from(lo).solves(hi - lo, x),
        ensures
            forall|t: int|
                lo <= t < hi ==> #[trigger] self.output(state, t) == self.from(lo).chunk_output(
                    x,
                    |m: int| state(lo - 1, m),
                    t - lo,
                ),
            forall|i: int|
                0 <= i < self.dk ==> #[trigger] state(hi - 1, i) == self.from(lo).chunk_state(
                    x,
                    |m: int| state(lo - 1, m),
                    hi - lo,
                    i,
                ),
    {
        let run = self.from(lo);
        let moved = |t: int, i: int| state(lo + t, i);
        let first = |m: int| state(lo - 1, m);
        assert forall|t: int, i: int| 0 <= t < hi - lo && 0 <= i < run.dk implies #[trigger]
        run.steps_at(moved, t, i) by {
            assert(self.steps_at(state, lo + t, i));
            let s1 = |m: int| state(lo + t - 1, m);
            let s2 = |m: int| moved(t - 1, m);
            let a1 = |m: int| (self.alpha)(lo + t, m);
            let a2 = |m: int| (run.alpha)(t, m);
            let k1 = |m: int| (self.k)(lo + t, m);
            let k2 = |m: int| (run.k)(t, m);
            assert(s1 =~= s2 && a1 =~= a2 && k1 =~= k2);
            assert(self.step(s1, lo + t, i) == run.step(s2, t, i));
        }
        assert((|m: int| moved(-1, m)) =~= first);
        assert forall|t: int| lo <= t < hi implies #[trigger] self.output(state, t)
            == run.chunk_output(x, first, t - lo) by {
            run.lemma_chunk_output(x, hi - lo, moved, t - lo);
            lemma_total_same(
                self.dk,
                |i: int| (self.q)(t, i) * state(t, i),
                |i: int| (run.q)(t - lo, i) * moved(t - lo, i),
            );
        }
        run.lemma_chunk_state(x, hi - lo, moved, hi - lo - 1);
        assert forall|i: int| 0 <= i < self.dk implies #[trigger] state(hi - 1, i)
            == run.chunk_state(x, first, hi - lo, i) by {
            assert(moved(hi - lo - 1, i) == state(hi - 1, i));
        }
    }
}

impl Run {
    /// The state after `t` tokens, by the recurrence.
    pub open spec fn states(&self, first: spec_fn(int) -> real, t: nat) -> spec_fn(int) -> real
        decreases t,
    {
        if t == 0 {
            first
        } else {
            let before = self.states(first, (t - 1) as nat);
            |i: int| self.step(before, t - 1, i)
        }
    }

    /// The states of the recurrence from `first`, which stands at `-1`.
    pub open spec fn path(&self, first: spec_fn(int) -> real) -> spec_fn(int, int) -> real {
        |t: int, i: int| self.states(first, (t + 1) as nat)(i)
    }

    /// The recurrence can be run from any state.
    pub proof fn law_recurs(&self, n: int, first: spec_fn(int) -> real)
        ensures
            self.recurs(n, self.path(first)),
    {
        let state = self.path(first);
        assert forall|t: int, i: int| 0 <= t < n && 0 <= i < self.dk implies #[trigger] self.steps_at(
            state,
            t,
            i,
        ) by {
            assert((|m: int| state(t - 1, m)) =~= self.states(first, t as nat));
        }
    }

    /// Chunk `j` of a pass with chunks of `c` tokens: from the state before it, the chunked
    /// form gives the state after it and the outputs of its tokens.
    pub open spec fn chunk_at(
        &self,
        c: int,
        n: int,
        bound: spec_fn(int, int) -> real,
        out: spec_fn(int) -> real,
        j: int,
    ) -> bool {
        let lo = j * c;
        let hi = if lo + c < n {
            lo + c
        } else {
            n
        };
        let run = self.from(lo);
        let x = run.solution((hi - lo) as nat);
        &&& forall|i: int|
            0 <= i < self.dk ==> #[trigger] bound(j + 1, i) == run.chunk_state(
                x,
                |m: int| bound(j, m),
                hi - lo,
                i,
            )
        &&& forall|t: int|
            lo <= t < hi ==> #[trigger] out(t) == run.chunk_output(
                x,
                |m: int| bound(j, m),
                t - lo,
            )
    }

    /// A pass over `n` tokens in chunks of `c`, from the state `first`: `bound` holds the
    /// states between the chunks and `out` the outputs.
    pub open spec fn chunked(
        &self,
        c: int,
        n: int,
        first: spec_fn(int) -> real,
        bound: spec_fn(int, int) -> real,
        out: spec_fn(int) -> real,
    ) -> bool {
        &&& forall|i: int| 0 <= i < self.dk ==> #[trigger] bound(0, i) == first(i)
        &&& forall|j: int| 0 <= j && j * c < n ==> #[trigger] self.chunk_at(c, n, bound, out, j)
    }

    /// Only the key channels of the first state count.
    proof fn lemma_first_channels(
        &self,
        x: Solution,
        f: spec_fn(int) -> real,
        g: spec_fn(int) -> real,
        n: int,
    )
        requires
            0 <= n,
            forall|i: int| 0 <= i < self.dk ==> #[trigger] f(i) == g(i),
        ensures
            forall|i: int|
                0 <= i < self.dk ==> #[trigger] self.chunk_state(x, f, n, i) == self.chunk_state(
                    x,
                    g,
                    n,
                    i,
                ),
            n > 0 ==> self.chunk_output(x, f, n - 1) == self.chunk_output(x, g, n - 1),
    {
        assert forall|s: int| #[trigger] self.added(x, f, s) == self.added(x, g, s) by {
            lemma_total_same(
                self.dk,
                |i: int| (x.w)(s, i) * f(i),
                |i: int| (x.w)(s, i) * g(i),
            );
        }
        assert forall|i: int| 0 <= i < self.dk implies #[trigger] self.chunk_state(x, f, n, i)
            == self.chunk_state(x, g, n, i) by {
            lemma_total_same(
                n as nat,
                |s: int| (self.kept(s, n - 1, i) * (self.k)(s, i)) * self.added(x, f, s),
                |s: int| (self.kept(s, n - 1, i) * (self.k)(s, i)) * self.added(x, g, s),
            );
        }
        if n > 0 {
            let t = n - 1;
            lemma_total_same(
                (t + 1) as nat,
                |s: int| self.attention(t, s) * self.added(x, f, s),
                |s: int| self.attention(t, s) * self.added(x, g, s),
            );
            lemma_total_same(
                self.dk,
                |i: int| (self.q)(t, i) * (self.kept(-1, t, i) * f(i)),
                |i: int| (self.q)(t, i) * (self.kept(-1, t, i) * g(i)),
            );
        }
    }

    /// The states before the chunks and the outputs up to there are those of the recurrence.
    proof fn lemma_chunked(
        &self,
        c: int,
        n: int,
        first: spec_fn(int) -> real,
        bound: spec_fn(int, int) -> real,
        out: spec_fn(int) -> real,
        j: int,
    )
        requires
            0 < c,
            0 <= j,
            j == 0 || (j - 1) * c < n,
            self.chunked(c, n, first, bound, out),
        ensures
            ({
                let hi = if j * c < n {
                    j * c
                } else {
                    n
                };
                &&& forall|i: int|
                    0 <= i < self.dk && 0 <= n ==> #[trigger] bound(j, i) == self.path(first)(
                        hi - 1,
                        i,
                    )
                &&& forall|t: int|
                    0 <= t < hi ==> #[trigger] out(t) == self.output(self.path(first), t)
            }),
        decreases j,
    {
        let state = self.path(first);
        if j > 0 {
            let lo = (j - 1) * c;
            let hi = if lo + c < n {
                lo + c
            } else {
                n
            };
            assert(j * c == lo + c && (j - 1) * c >= 0 && (j > 1 ==> (j - 2) * c < n)) by (nonlinear_arith)
                requires
                    lo == (j - 1) * c,
                    lo < n,
                    j > 0,
                    c > 0,
            ;
            self.lemma_chunked(c, n, first, bound, out, j - 1);
            assert(self.chunk_at(c, n, bound, out, j - 1));
            let run = self.from(lo);
            let x = run.solution((hi - lo) as nat);
            self.law_recurs(n, first);
            run.law_solvable((hi - lo) as nat);
            self.law_any_chunk(n, state, lo, hi, x);
            let f = |m: int| bound(j - 1, m);
            let g = |m: int| state(lo - 1, m);
            assert forall|i: int| 0 <= i < run.dk implies #[trigger] f(i) == g(i) by {
                assert(bound(j - 1, i) == state(lo - 1, i));
            }
            run.lemma_first_channels(x, f, g, hi - lo);
            assert forall|i: int| 0 <= i < self.dk implies #[trigger] bound(j, i) == state(
                hi - 1,
                i,
            ) by {
                assert(bound(j - 1 + 1, i) == run.chunk_state(x, f, hi - lo, i));
            }
            assert forall|t: int| lo <= t < hi implies #[trigger] out(t) == self.output(
                state,
                t,
            ) by {
                run.lemma_first_channels(x, f, g, t - lo + 1);
                assert(out(t) == run.chunk_output(x, f, t - lo));
            }
            assert forall|t: int| 0 <= t < hi implies #[trigger] out(t) == self.output(
                state,
                t,
            ) by {
                if t < lo {
                    assert(out(t) == self.output(self.path(first), t));
                }
            }
        } else {
            assert(j * c == 0) by (nonlinear_arith)
                requires
                    j == 0,
            ;
            assert forall|i: int| 0 <= i < self.dk && 0 <= n implies #[trigger] bound(j, i)
                == state(-1, i) by {
                assert(bound(0, i) == first(i));
            }
        }
    }

    /// The recurrence has one outcome: states that follow it from `first` are its path.
    proof fn lemma_path(
        &self,
        n: int,
        state: spec_fn(int, int) -> real,
        first: spec_fn(int) -> real,
        t: int,
    )
        requires
            self.recurs(n, state),
            forall|i: int| 0 <= i < self.dk ==> #[trigger] state(-1, i) == first(i),
            -1 <= t < n,
        ensures
            forall|i: int|
                0 <= i < self.dk ==> #[trigger] state(t, i) == self.path(first)(t, i),
        decreases t + 1,
    {
        if t >= 0 {
            self.lemma_path(n, state, first, t - 1);
            self.law_recurs(n, first);
            let path = self.path(first);
            let f = |m: int| state(t - 1, m);
            let g = |m: int| path(t - 1, m);
            let al = |m: int| (self.alpha)(t, m);
            let key = |m: int| (self.k)(t, m);
            assert forall|m: int| 0 <= m < self.dk implies #[trigger] f(m) == g(m) by {
                assert(state(t - 1, m) == path(t - 1, m));
            }
            lemma_total_same(
                self.dk,
                |m: int| (al(m) * f(m)) * key(m),
                |m: int| (al(m) * g(m)) * key(m),
            );
            assert forall|i: int| 0 <= i < self.dk implies #[trigger] state(t, i) == path(t, i) by {
                assert(self.steps_at(state, t, i));
                assert(self.steps_at(path, t, i));
                assert(f(i) == g(i));
            }
        }
    }

    /// States that follow the recurrence from `first` give its outputs.
    pub proof fn law_recurrence_is_unique(
        &self,
        n: int,
        state: spec_fn(int, int) -> real,
        first: spec_fn(int) -> real,
    )
        requires
            self.recurs(n, state),
            forall|i: int| 0 <= i < self.dk ==> #[trigger] state(-1, i) == first(i),
        ensures
            forall|t: int|
                0 <= t < n ==> #[trigger] self.output(state, t) == self.output(
                    self.path(first),
                    t,
                ),
    {
        assert forall|t: int| 0 <= t < n implies #[trigger] self.output(state, t) == self.output(
            self.path(first),
            t,
        ) by {
            self.lemma_path(n, state, first, t);
            let path = self.path(first);
            lemma_total_same(
                self.dk,
                |i: int| (self.q)(t, i) * state(t, i),
                |i: int| (self.q)(t, i) * path(t, i),
            );
        }
    }

    /// A sequence can be processed in chunks of any size: the states of the recurrence
    /// between the chunks and its outputs are such a pass.
    pub proof fn law_any_size_can_be_run(&self, c: int, n: int, first: spec_fn(int) -> real)
        requires
            0 < c,
            0 <= n,
        ensures
            self.chunked(
                c,
                n,
                first,
                |j: int, i: int|
                    self.path(first)(
                        (if j * c < n {
                            j * c
                        } else {
                            n
                        }) - 1,
                        i,
                    ),
                |t: int| self.output(self.path(first), t),
            ),
    {
        let path = self.path(first);
        let end = |j: int|
            if j * c < n {
                j * c
            } else {
                n
            };
        let bound = |j: int, i: int|
            path(
                (if j * c < n {
                    j * c
                } else {
                    n
                }) - 1,
                i,
            );
        let out = |t: int| self.output(path, t);
        self.law_recurs(n, first);
        assert forall|j: int| 0 <= j && j * c < n implies #[trigger] self.chunk_at(
            c,
            n,
            bound,
            out,
            j,
        ) by {
            let lo = j * c;
            let hi = if lo + c < n {
                lo + c
            } else {
                n
            };
            assert(0 <= lo && (j + 1) * c == lo + c) by (nonlinear_arith)
                requires
                    lo == j * c,
                    0 <= j,
                    0 < c,
            ;
            let run = self.from(lo);
            let x = run.solution((hi - lo) as nat);
            run.law_solvable((hi - lo) as nat);
            self.law_any_chunk(n, path, lo, hi, x);
            assert((|m: int| bound(j, m)) =~= (|m: int| path(lo - 1, m)));
            assert forall|i: int| 0 <= i < self.dk implies #[trigger] bound(j + 1, i)
                == run.chunk_state(x, |m: int| bound(j, m), hi - lo, i) by {
                assert(bound(j + 1, i) == path(hi - 1, i));
            }
            assert forall|t: int| lo <= t < hi implies #[trigger] out(t) == run.chunk_output(
                x,
                |m: int| bound(j, m),
                t - lo,
            ) by {
                assert(out(t) == self.output(path, t));
            }
        }
        assert(0 * c == 0);
    }

    /// The chunk size does not change the result: a pass in chunks of any size gives the
    /// outputs of the recurrence, so passes of two sizes give the same.
    pub proof fn law_chunk_size_does_not_matter(
        &self,
        n: int,
        first: spec_fn(int) -> real,
        c1: int,
        bound1: spec_fn(int, int) -> real,
        out1: spec_fn(int) -> real,
        c2: int,
        bound2: spec_fn(int, int) -> real,
        out2: spec_fn(int) -> real,
    )
        requires
            0 < c1,
            0 < c2,
            self.chunked(c1, n, first, bound1, out1),
            self.chunked(c2, n, first, bound2, out2),
        ensures
            forall|t: int|
                0 <= t < n ==> #[trigger] out1(t) == self.output(self.path(first), t) && out1(t)
                    == out2(t),
    {
        if n > 0 {
            self.lemma_last_chunk(n, first, c1, bound1, out1);
            self.lemma_last_chunk(n, first, c2, bound2, out2);
        }
    }

    /// All outputs of a chunked pass are those of the recurrence.
    proof fn lemma_last_chunk(
        &self,
        n: int,
        first: spec_fn(int) -> real,
        c: int,
        bound: spec_fn(int, int) -> real,
        out: spec_fn(int) -> real,
    )
        requires
            0 < n,
            0 < c,
            self.chunked(c, n, first, bound, out),
        ensures
            forall|t: int|
                0 <= t < n ==> #[trigger] out(t) == self.output(self.path(first), t),
    {
        let j = (n - 1) / c + 1;
        vstd::arithmetic::div_mod::lemma_fundamental_div_mod(n - 1, c);
        let q = (n - 1) / c;
        assert(0 <= q && q * c < n <= (q + 1) * c) by (nonlinear_arith)
            requires
                n - 1 == c * q + (n - 1) % c,
                0 <= (n - 1) % c < c,
                0 < n,
                0 < c,
        ;
        self.lemma_chunked(c, n, first, bound, out, j);
    }
}

/// A term of the chunked state, decayed once more.
proof fn lemma_kept_term(a: real, kp: real, ks: real, ad: real)
    ensures
        a * ((kp * ks) * ad) == ((kp * a) * ks) * ad,
{
    lemma_assoc(a, kp * ks, ad);
    lemma_assoc(a, kp, ks);
    lemma_comm(a, kp);
}

/// The delta rule adds the corrected value along the key.
proof fn lemma_correction(s: real, k: real, v: real, beta: real, r: real)
    ensures
        rewritten(real_arith(), s, k, v, beta, r) == s + k * (beta * (v - r)),
{
    lemma_comm(r, beta);
    lemma_comm(v, beta);
    lemma_dist_sub(beta, v, r);
    lemma_dist_sub(k, beta * v, beta * r);
}

/// A term of a read state, decayed once more.
proof fn lemma_decayed_term(x: real, al: real, kp: real, ks: real, ad: real)
    ensures
        (x * al) * ((kp * ks) * ad) == (x * ((kp * al) * ks)) * ad,
{
    lemma_assoc(x * al, kp * ks, ad);
    lemma_assoc(x, al, kp * ks);
    lemma_assoc(al, kp, ks);
    lemma_comm(al, kp);
}

/// An entry of a read state, decayed once more.
proof fn lemma_decayed_entry(x: real, al: real, k0: real, f: real, tf: real)
    ensures
        x * (al * (k0 * f + tf)) == x * ((k0 * al) * f) + (x * al) * tf,
{
    lemma_dist(al, k0 * f, tf);
    lemma_assoc(al, k0, f);
    lemma_comm(al, k0);
    lemma_dist(x, (k0 * al) * f, al * tf);
    lemma_assoc(x, al, tf);
}

} // verus!
