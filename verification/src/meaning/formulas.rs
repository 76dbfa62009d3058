//! The layer over the reals, as it is written on paper.
use crate::calculus::Reals;
use crate::chunkwise::Run;
use crate::config::{DecayFn, GateMode};
use crate::meaning::{column, dot, row};
use vstd::prelude::*;

verus! {

/// The parameters of a layer over the reals.
pub struct RealLayer {
    /// Input channels.
    pub d: nat,
    /// Key heads and their channels.
    pub heads: nat,
    pub dk: nat,
    /// Value heads and their channels.
    pub v_heads: nat,
    pub dv: nat,
    /// Maps to queries, keys and values, by input and output channel.
    pub wq: spec_fn(int, int) -> real,
    pub wk: spec_fn(int, int) -> real,
    pub wv: spec_fn(int, int) -> real,
    /// Whether the three are convolved, and the taps of every channel.
    pub conv: bool,
    pub cq: spec_fn(int, int) -> real,
    pub ck: spec_fn(int, int) -> real,
    pub cv: spec_fn(int, int) -> real,
    /// Stabilizer of the norm of queries and keys.
    pub unit_eps: real,
    /// The decay: its low-rank maps, bias, log-scale of every head, mapping and floor.
    pub rank: nat,
    pub up: spec_fn(int, int) -> real,
    pub down: spec_fn(int, int) -> real,
    pub bias: spec_fn(int) -> real,
    pub a_log: spec_fn(int) -> real,
    pub decay_fn: DecayFn,
    pub g_min: real,
    /// Map to the logits of the write strengths.
    pub wb: spec_fn(int, int) -> real,
    /// The gates: of full rank, or by two maps of low rank.
    pub gate: GateMode,
    pub wg: spec_fn(int, int) -> real,
    pub gate_up: spec_fn(int, int) -> real,
    pub gate_down: spec_fn(int, int) -> real,
    /// Weights and stabilizer of the norm of the heads, and the map of their outputs.
    pub norm: spec_fn(int) -> real,
    pub eps: real,
    pub wo: spec_fn(int, int) -> real,
}

/// Four taps on a token and the three before it; the first token stands in for those before
/// the sequence.
pub open spec fn convolved(f: spec_fn(int) -> real, w: spec_fn(int) -> real, t: int) -> real {
    if t >= 3 {
        f(t - 3) * w(0) + f(t - 2) * w(1) + f(t - 1) * w(2) + f(t) * w(3)
    } else if t == 2 {
        f(0) * w(0) + f(0) * w(1) + f(1) * w(2) + f(2) * w(3)
    } else if t == 1 {
        f(0) * w(0) + f(0) * w(1) + f(0) * w(2) + f(1) * w(3)
    } else {
        f(0) * w(0) + f(0) * w(1) + f(0) * w(2) + f(0) * w(3)
    }
}

/// The column of a state for value channel `j` of head `h`.
pub open spec fn state_column(
    s: spec_fn(int, int, int) -> real,
    h: int,
    j: int,
) -> spec_fn(int) -> real {
    |i: int| s(h, i, j)
}

impl Reals {
    /// `x * sigmoid(x)`.
    pub open spec fn silu(&self, x: real) -> real {
        x * self.logistic(x)
    }
}

impl RealLayer {
    /// Channel `c` of a linear map of token `t`.
    pub open spec fn mapped(
        &self,
        w: spec_fn(int, int) -> real,
        x: spec_fn(int, int) -> real,
        t: int,
        c: int,
    ) -> real {
        dot(self.d, row(x, t), column(w, c))
    }

    /// Channel `c` of a linear map, token by token.
    pub open spec fn channel(
        &self,
        w: spec_fn(int, int) -> real,
        x: spec_fn(int, int) -> real,
        c: int,
    ) -> spec_fn(int) -> real {
        |t: int| self.mapped(w, x, t, c)
    }

    /// Channel `c` of the activations at token `t`.
    pub open spec fn active(
        &self,
        rs: Reals,
        w: spec_fn(int, int) -> real,
        taps: spec_fn(int, int) -> real,
        x: spec_fn(int, int) -> real,
        t: int,
        c: int,
    ) -> real {
        if self.conv {
            rs.silu(convolved(self.channel(w, x, c), row(taps, c), t))
        } else {
            rs.silu(self.mapped(w, x, t, c))
        }
    }

    /// The activations at token `t`.
    pub open spec fn actives(
        &self,
        rs: Reals,
        w: spec_fn(int, int) -> real,
        taps: spec_fn(int, int) -> real,
        x: spec_fn(int, int) -> real,
        t: int,
    ) -> spec_fn(int) -> real {
        |c: int| self.active(rs, w, taps, x, t, c)
    }

    /// Channel `c` of the activations at token `t`, over their length.
    pub open spec fn normed(
        &self,
        rs: Reals,
        w: spec_fn(int, int) -> real,
        taps: spec_fn(int, int) -> real,
        x: spec_fn(int, int) -> real,
        t: int,
        c: int,
    ) -> real {
        let a = self.actives(rs, w, taps, x, t);
        a(c) / (rs.sqrt)(dot(self.heads * self.dk, a, a) + self.unit_eps)
    }

    /// The key head of a head: consecutive value heads share one where there are more of
    /// them.
    pub open spec fn key_head(&self, h: int) -> int {
        if self.v_heads > self.heads {
            h / (self.v_heads as int / self.heads as int)
        } else {
            h
        }
    }

    /// Channel `i` of the query of head `h`.
    pub open spec fn query(
        &self,
        rs: Reals,
        x: spec_fn(int, int) -> real,
        h: int,
        t: int,
        i: int,
    ) -> real {
        self.normed(rs, self.wq, self.cq, x, t, self.key_head(h) * self.dk + i)
    }

    /// Channel `i` of the key of head `h`.
    pub open spec fn key(
        &self,
        rs: Reals,
        x: spec_fn(int, int) -> real,
        h: int,
        t: int,
        i: int,
    ) -> real {
        self.normed(rs, self.wk, self.ck, x, t, self.key_head(h) * self.dk + i)
    }

    /// Channel `j` of the value of head `h`.
    pub open spec fn value(
        &self,
        rs: Reals,
        x: spec_fn(int, int) -> real,
        h: int,
        t: int,
        j: int,
    ) -> real {
        self.active(rs, self.wv, self.cv, x, t, h * self.dv + j)
    }

    /// The first map of the decay at token `t`.
    pub open spec fn low(&self, x: spec_fn(int, int) -> real, t: int) -> spec_fn(int) -> real {
        |r: int| self.mapped(self.up, x, t, r)
    }

    /// `z = W_down (W_up x) + b_alpha` in channel `n`.
    pub open spec fn logit(&self, x: spec_fn(int, int) -> real, t: int, n: int) -> real {
        dot(self.rank, self.low(x, t), column(self.down, n)) + (self.bias)(n)
    }

    /// The log-decay of channel `i` of key head `h`: `-exp(A_h) * Softplus(z)` or
    /// `g_min * Sigmoid(exp(A_h) * z)`.
    pub open spec fn log_decay(
        &self,
        rs: Reals,
        x: spec_fn(int, int) -> real,
        h: int,
        t: int,
        i: int,
    ) -> real {
        let z = self.logit(x, t, h * self.dk + i);
        let scale = (rs.exp)((self.a_log)(h));
        match self.decay_fn {
            DecayFn::Softplus => -(scale * rs.softplus(z)),
            DecayFn::Sigmoid => self.g_min * rs.logistic(scale * z),
        }
    }

    /// The log-decay of channel `i` of head `h`.
    pub open spec fn forgotten(
        &self,
        rs: Reals,
        x: spec_fn(int, int) -> real,
        h: int,
        t: int,
        i: int,
    ) -> real {
        self.log_decay(rs, x, self.key_head(h), t, i)
    }

    /// The write strength of head `h`: `Sigmoid(W_beta x)`.
    pub open spec fn strength(
        &self,
        rs: Reals,
        x: spec_fn(int, int) -> real,
        h: int,
        t: int,
    ) -> real {
        rs.logistic(self.mapped(self.wb, x, t, self.key_head(h)))
    }

    /// What the recurrence of value channel `j` of head `h` is given.
    pub open spec fn run(
        &self,
        rs: Reals,
        x: spec_fn(int, int) -> real,
        h: int,
        j: int,
    ) -> Run {
        Run {
            dk: self.dk,
            alpha: |t: int, i: int| (rs.exp)(self.forgotten(rs, x, h, t, i)),
            k: |t: int, i: int| self.key(rs, x, h, t, i),
            q: |t: int, i: int| self.query(rs, x, h, t, i),
            v: |t: int| self.value(rs, x, h, t, j),
            beta: |t: int| self.strength(rs, x, h, t),
        }
    }

    /// The outputs of the heads at token `t`, from the states `first` by head, key and value
    /// channel.
    pub open spec fn attended(
        &self,
        rs: Reals,
        x: spec_fn(int, int) -> real,
        first: spec_fn(int, int, int) -> real,
        t: int,
    ) -> spec_fn(int, int) -> real {
        |h: int, j: int|
            {
                let run = self.run(rs, x, h, j);
                run.output(run.path(state_column(first, h, j)), t)
            }
    }

    /// What the queries of token `t` read of the states `s`.
    pub open spec fn looked_up(
        &self,
        rs: Reals,
        x: spec_fn(int, int) -> real,
        s: spec_fn(int, int, int) -> real,
        t: int,
    ) -> spec_fn(int, int) -> real {
        |h: int, j: int|
            dot(self.dk, |i: int| self.query(rs, x, h, t, i), state_column(s, h, j))
    }

    /// The gates of token `t`.
    pub open spec fn gates(
        &self,
        rs: Reals,
        x: spec_fn(int, int) -> real,
        t: int,
    ) -> spec_fn(int, int) -> real {
        |h: int, j: int| self.opened(rs, x, h, t, j)
    }

    /// The first map of a gate of low rank at token `t`.
    pub open spec fn gate_low(&self, x: spec_fn(int, int) -> real, t: int) -> spec_fn(int) -> real {
        |r: int| self.mapped(self.gate_up, x, t, r)
    }

    /// The output gate of channel `j` of head `h`: `Sigmoid(W x)` or
    /// `Sigmoid(W_down (W_up x))`.
    pub open spec fn opened(
        &self,
        rs: Reals,
        x: spec_fn(int, int) -> real,
        h: int,
        t: int,
        j: int,
    ) -> real {
        let c = h * self.dv + j;
        match self.gate {
            GateMode::FullRank => rs.logistic(self.mapped(self.wg, x, t, c)),
            GateMode::LowRank => rs.logistic(
                dot(self.dk, self.gate_low(x, t), column(self.gate_down, c)),
            ),
        }
    }

    /// The mean square of a head.
    pub open spec fn power(&self, o: spec_fn(int) -> real) -> real {
        dot(self.dv, o, o) / (self.dv as real)
    }

    /// Channel `j` of a head, normalized and gated.
    pub open spec fn finished(
        &self,
        rs: Reals,
        o: spec_fn(int) -> real,
        gate: spec_fn(int) -> real,
        j: int,
    ) -> real {
        o(j) / (rs.sqrt)(self.power(o) + self.eps) * gate(j) * (self.norm)(j)
    }

    /// The channels of all heads normalized and gated, head after head.
    pub open spec fn joined(
        &self,
        rs: Reals,
        o: spec_fn(int, int) -> real,
        gate: spec_fn(int, int) -> real,
    ) -> spec_fn(int) -> real {
        |n: int|
            self.finished(
                rs,
                row(o, n / self.dv as int),
                row(gate, n / self.dv as int),
                n % self.dv as int,
            )
    }

    /// Channel `e` of the output: `W_o` on the finished heads, one after the other. `o` and
    /// `gate` are functions of head and channel.
    pub open spec fn merged(
        &self,
        rs: Reals,
        o: spec_fn(int, int) -> real,
        gate: spec_fn(int, int) -> real,
        e: int,
    ) -> real {
        dot(self.v_heads * self.dv, self.joined(rs, o, gate), column(self.wo, e))
    }
}

} // verus!
