//! The Rescue-XLIX permutation and the sponge built on it.

use crate::felt::{all_wf, fmul, fpow, modulus, BaseFelt, BITS, MODULUS};
use crate::matrix::{copy_row, dot, get_mds_matrix, is_matrix, matrix_mul, mds_of, mview};
use vstd::arithmetic::div_mod::*;
use vstd::arithmetic::power::*;
use vstd::prelude::*;

verus! {

/// Exponent of the forward S-box.
pub const ALPHA: u128 = 138;

/// Exponent of the inverse S-box: the inverse of `ALPHA` in the field.
pub const ALPHA_INV: u128 = 107807132919004861648375800885418526572;

/// Bytes of the pseudorandom stream folded into one round constant: one
/// more than the bytes of the modulus.
pub const BYTES_PER_INT: usize = 17;

/// `ALPHA_INV` is the field inverse of `ALPHA`.
pub proof fn lemma_alpha_inv()
    ensures
        fmul(ALPHA as int, ALPHA_INV as int) == 1,
        BYTES_PER_INT == (BITS + 7) / 8 + 1,
{
    assert(ALPHA as int * ALPHA_INV as int == 55 * modulus() + 1);
    lemma_fundamental_div_mod_converse_mod(ALPHA as int * ALPHA_INV as int, modulus(), 55, 1);
}

/// The decimal digits of `n` in ASCII, most significant first.
pub open spec fn decimal(n: nat) -> Seq<u8>
    decreases n,
{
    if n < 10 {
        seq![(48 + n) as u8]
    } else {
        decimal(n / 10).push((48 + n % 10) as u8)
    }
}

/// `Rescue-XLIX(` in ASCII.
pub open spec fn seed_prefix() -> Seq<u8> {
    seq![82u8, 101u8, 115u8, 99u8, 117u8, 101u8, 45u8, 88u8, 76u8, 73u8, 88u8, 40u8]
}

/// The seed of the round-constant stream:
/// `Rescue-XLIX(<modulus>,<state width>,<capacity>,<security level>)`.
pub open spec fn seed_of(state_width: nat, capacity: nat, security_level: nat) -> Seq<u8> {
    seed_prefix()
        + decimal(MODULUS as nat) + seq![44u8] + decimal(state_width) + seq![44u8]
        + decimal(capacity) + seq![44u8] + decimal(security_level) + seq![41u8]
}

/// Appends the decimal digits of `n`.
fn push_decimal(out: &mut Vec<u8>, n: u128)
    ensures
        final(out)@ == old(out)@ + decimal(n as nat),
    decreases n,
{
    if n >= 10 {
        push_decimal(out, n / 10);
    }
    out.push((48 + n % 10) as u8);
    assert(final(out)@ =~= old(out)@ + decimal(n as nat));
}

/// The bytes of the seed that the extendable-output hash is fed to derive
/// the round constants.
pub fn seed(state_width: usize, capacity: usize, security_level: usize) -> (r: Vec<u8>)
    ensures
        r@ == seed_of(state_width as nat, capacity as nat, security_level as nat),
{
    let mut out: Vec<u8> = Vec::new();
    // "Rescue-XLIX("
    out.push(82u8);
    out.push(101u8);
    out.push(115u8);
    out.push(99u8);
    out.push(117u8);
    out.push(101u8);
    out.push(45u8);
    out.push(88u8);
    out.push(76u8);
    out.push(73u8);
    out.push(88u8);
    out.push(40u8);
    push_decimal(&mut out, MODULUS);
    out.push(44u8);
    push_decimal(&mut out, state_width as u128);
    out.push(44u8);
    push_decimal(&mut out, capacity as u128);
    out.push(44u8);
    push_decimal(&mut out, security_level as u128);
    out.push(41u8);
    assert(out@ =~= seed_of(state_width as nat, capacity as nat, security_level as nat));
    out
}

/// `sum of b[t] * 256^t` over `t < k`.
pub open spec fn byte_sum(b: Seq<u8>, k: nat) -> int
    decreases k,
{
    if k == 0 {
        0
    } else {
        byte_sum(b, (k - 1) as nat) + b[k - 1] * pow(256, (k - 1) as nat)
    }
}

/// The field element read from the `k`-th chunk of the stream.
pub open spec fn chunk_value(stream: Seq<u8>, k: int) -> int {
    byte_sum(stream.subrange(k * BYTES_PER_INT, (k + 1) * BYTES_PER_INT), BYTES_PER_INT as nat)
        % modulus()
}

/// Folds `stream[start..start + len]` into a field element, lowest byte
/// first.
fn fold_bytes(stream: &Vec<u8>, start: usize, len: usize) -> (r: BaseFelt)
    requires
        start + len <= stream.len(),
    ensures
        r.wf(),
        r@ == byte_sum(stream@.subrange(start as int, start + len), len as nat) % modulus(),
{
    let ghost bytes = stream@.subrange(start as int, start + len);
    let mut power = BaseFelt::one();
    let mut acc = BaseFelt::zero();
    let base = BaseFelt::new(256);
    let mut k: usize = 0;
    proof {
        lemma_small_mod(256, modulus() as nat);
        lemma_pow0(256);
        lemma_small_mod(1, modulus() as nat);
        lemma_small_mod(0, modulus() as nat);
    }
    while k < len
        invariant
            start + len <= stream.len(),
            bytes == stream@.subrange(start as int, start + len),
            k <= len,
            power.wf(),
            acc.wf(),
            base@ == 256,
            power@ == pow(256, k as nat) % modulus(),
            acc@ == byte_sum(bytes, k as nat) % modulus(),
        decreases len - k,
    {
        let b = BaseFelt::new(stream[start + k] as u128);
        assert(bytes[k as int] == stream@[start + k]);
        let ghost old_acc = acc@;
        let ghost old_power = power@;
        proof {
            lemma_small_mod(bytes[k as int] as nat, modulus() as nat);
        }
        acc = acc.add(power.mul(b));
        power = power.mul(base);
        proof {
            let bk = bytes[k as int] as int;
            let pk = pow(256, k as nat);
            lemma_mul_mod_noop_left(pk, bk, modulus());
            lemma_add_mod_noop(byte_sum(bytes, k as nat), pk * bk, modulus());
            lemma_mod_twice(byte_sum(bytes, k as nat), modulus());
            lemma_mod_twice(pk * bk, modulus());
            assert(pk * bk == bk * pk) by (nonlinear_arith);
            lemma_mul_mod_noop_left(pk, 256, modulus());
            assert(pow(256, (k + 1) as nat) == pk * 256) by {
                lemma_pow_adds(256, k as nat, 1);
                lemma_pow1(256);
            }
        }
        k += 1;
    }
    acc
}

/// The `2 * m * rounds` round constants read from a pseudorandom stream, one
/// chunk of `BYTES_PER_INT` bytes each.
pub fn round_constants(stream: &Vec<u8>, m: usize, rounds: usize) -> (r: Vec<BaseFelt>)
    requires
        2 * m * rounds * BYTES_PER_INT <= stream.len(),
    ensures
        r.len() == 2 * m * rounds,
        all_wf(r@),
        forall|k: int| 0 <= k < r.len() ==> (#[trigger] r[k])@ == chunk_value(stream@, k),
{
    assert(m * rounds * 2 <= 2 * m * rounds * BYTES_PER_INT) by (nonlinear_arith);
    let count = m * rounds * 2;
    assert(count == 2 * m * rounds) by (nonlinear_arith)
        requires
            count == m * rounds * 2,
    ;
    let mut r: Vec<BaseFelt> = Vec::new();
    let mut k: usize = 0;
    while k < count
        invariant
            count == 2 * m * rounds,
            count == m * rounds * 2,
            count * BYTES_PER_INT <= stream.len(),
            k <= count,
            r.len() == k,
            all_wf(r@),
            forall|k2: int| 0 <= k2 < k ==> (#[trigger] r[k2])@ == chunk_value(stream@, k2),
        decreases count - k,
    {
        assert((k + 1) * BYTES_PER_INT <= count * BYTES_PER_INT) by (nonlinear_arith)
            requires
                k < count,
        ;
        let start = k * BYTES_PER_INT;
        let x = fold_bytes(stream, start, BYTES_PER_INT);
        r.push(x);
        k += 1;
    }
    r
}


/// The values of a state held as an `m x 1` column matrix.
pub open spec fn col(s: Seq<Vec<BaseFelt>>) -> Seq<int> {
    Seq::new(s.len(), |j: int| s[j]@[0]@)
}

/// Every entry raised to `e`.
pub open spec fn sbox(s: Seq<int>, e: nat) -> Seq<int> {
    Seq::new(s.len(), |j: int| fpow(s[j], e))
}

/// `sum of a[t] * s[t]` over `t < k`, reduced term by term.
pub open spec fn dot_col(a: Seq<BaseFelt>, s: Seq<int>, k: nat) -> int
    decreases k,
{
    if k == 0 {
        0
    } else {
        (dot_col(a, s, (k - 1) as nat) + fmul(a[k - 1]@, s[k - 1])) % modulus()
    }
}

/// The matrix `mds` applied to the column `s`.
pub open spec fn mix(mds: Seq<Vec<BaseFelt>>, s: Seq<int>) -> Seq<int> {
    Seq::new(mds.len(), |i: int| dot_col(mds[i]@, s, s.len()))
}

/// `rc[off + j]` added to entry `j`.
pub open spec fn add_constants(s: Seq<int>, rc: Seq<BaseFelt>, off: int) -> Seq<int> {
    Seq::new(s.len(), |j: int| (s[j] + rc[off + j]@) % modulus())
}

/// Round `i`: forward S-box, mixing, constants, inverse S-box, mixing,
/// constants.
pub open spec fn round(mds: Seq<Vec<BaseFelt>>, rc: Seq<BaseFelt>, s: Seq<int>, i: int) -> Seq<
    int,
> {
    let m = s.len() as int;
    let a = add_constants(mix(mds, sbox(s, ALPHA as nat)), rc, 2 * m * i);
    add_constants(mix(mds, sbox(a, ALPHA_INV as nat)), rc, 2 * m * i + m)
}

/// The first `k` rounds applied to `s`.
pub open spec fn rounds_of(mds: Seq<Vec<BaseFelt>>, rc: Seq<BaseFelt>, s: Seq<int>, k: nat) -> Seq<
    int,
>
    decreases k,
{
    if k == 0 {
        s
    } else {
        round(mds, rc, rounds_of(mds, rc, s, (k - 1) as nat), k - 1)
    }
}

proof fn lemma_dot_col(a: Seq<BaseFelt>, b: Seq<Vec<BaseFelt>>, k: nat)
    requires
        k <= b.len(),
    ensures
        dot(a, b, 0, k) == dot_col(a, col(b), k),
    decreases k,
{
    if k > 0 {
        lemma_dot_col(a, b, (k - 1) as nat);
    }
}

/// A state of one column whose entries are those of `s` raised to `e`.
fn sbox_layer(state: &Vec<Vec<BaseFelt>>, e: u128) -> (r: Vec<Vec<BaseFelt>>)
    requires
        is_matrix(state@, state.len() as nat, 1),
    ensures
        is_matrix(r@, state.len() as nat, 1),
        col(r@) == sbox(col(state@), e as nat),
{
    let mut r: Vec<Vec<BaseFelt>> = Vec::new();
    let mut j: usize = 0;
    while j < state.len()
        invariant
            is_matrix(state@, state.len() as nat, 1),
            j <= state.len(),
            is_matrix(r@, j as nat, 1),
            forall|j2: int| 0 <= j2 < j ==> (#[trigger] r[j2])@[0]@ == fpow(state[j2]@[0]@, e as nat),
        decreases state.len() - j,
    {
        assert(state[j as int]@.len() == 1 && all_wf(state[j as int]@));
        let x = state[j][0];
        assert(x.wf());
        let mut row: Vec<BaseFelt> = Vec::new();
        row.push(x.pow(e));
        r.push(row);
        j += 1;
    }
    assert(col(r@) =~= sbox(col(state@), e as nat));
    r
}

/// A state of one column with `rc[off + j]` added to entry `j`.
fn constants_layer(state: &Vec<Vec<BaseFelt>>, rc: &Vec<BaseFelt>, off: usize) -> (r: Vec<
    Vec<BaseFelt>,
>)
    requires
        is_matrix(state@, state.len() as nat, 1),
        all_wf(rc@),
        off + state.len() <= rc.len(),
    ensures
        is_matrix(r@, state.len() as nat, 1),
        col(r@) == add_constants(col(state@), rc@, off as int),
{
    let mut r: Vec<Vec<BaseFelt>> = Vec::new();
    let mut j: usize = 0;
    while j < state.len()
        invariant
            is_matrix(state@, state.len() as nat, 1),
            all_wf(rc@),
            off + state.len() <= rc.len(),
            j <= state.len(),
            is_matrix(r@, j as nat, 1),
            forall|j2: int|
                0 <= j2 < j ==> (#[trigger] r[j2])@[0]@ == (state[j2]@[0]@ + rc[off + j2]@)
                    % modulus(),
        decreases state.len() - j,
    {
        assert(state[j as int]@.len() == 1 && all_wf(state[j as int]@));
        let x = state[j][0];
        let c = rc[off + j];
        assert(x.wf() && c.wf());
        let mut row: Vec<BaseFelt> = Vec::new();
        row.push(x.add(c));
        r.push(row);
        j += 1;
    }
    assert(col(r@) =~= add_constants(col(state@), rc@, off as int));
    r
}

/// The linear layer: `mds` times the state.
fn mix_layer(mds: &Vec<Vec<BaseFelt>>, state: &Vec<Vec<BaseFelt>>) -> (r: Vec<Vec<BaseFelt>>)
    requires
        mds.len() > 0,
        is_matrix(mds@, mds.len() as nat, mds.len() as nat),
        is_matrix(state@, mds.len() as nat, 1),
    ensures
        is_matrix(r@, mds.len() as nat, 1),
        col(r@) == mix(mds@, col(state@)),
{
    let r = matrix_mul(mds, state);
    proof {
        assert(mds[0]@.len() == mds.len());
        assert(state[0]@.len() == 1);
        assert forall|i: int| 0 <= i < mds.len() implies #[trigger] col(r@)[i] == mix(
            mds@,
            col(state@),
        )[i] by {
            assert(r[i]@.len() == 1);
            lemma_dot_col(mds[i]@, state@, state.len() as nat);
        }
        assert(col(r@) =~= mix(mds@, col(state@)));
    }
    r
}


/// The values held by a sequence of elements.
pub open spec fn vals(s: Seq<BaseFelt>) -> Seq<int> {
    s.map_values(|x: BaseFelt| x@)
}

/// The input followed by a one and the fewest zeros that make its length a
/// multiple of `rate`.
pub open spec fn pad(input: Seq<int>, rate: nat) -> Seq<int> {
    input.push(1) + Seq::new(
        ((rate as int - (input.len() as int + 1) % (rate as int)) % (rate as int)) as nat,
        |i: int| 0,
    )
}

/// `padded[off + j]` added to each of the first `rate` entries.
pub open spec fn absorb_block(s: Seq<int>, padded: Seq<int>, off: int, rate: nat) -> Seq<int> {
    Seq::new(
        s.len(),
        |j: int|
            if j < rate {
                (s[j] + padded[off + j]) % modulus()
            } else {
                s[j]
            },
    )
}

/// A state of one column with `padded[off + j]` added to each of its first
/// `rate` entries.
fn absorb_layer(state: &Vec<Vec<BaseFelt>>, padded: &Vec<BaseFelt>, off: usize, rate: usize) -> (r:
    Vec<Vec<BaseFelt>>)
    requires
        is_matrix(state@, state.len() as nat, 1),
        rate <= state.len(),
        all_wf(padded@),
        off + rate <= padded.len(),
    ensures
        is_matrix(r@, state.len() as nat, 1),
        col(r@) == absorb_block(col(state@), vals(padded@), off as int, rate as nat),
{
    let mut r: Vec<Vec<BaseFelt>> = Vec::new();
    let mut j: usize = 0;
    while j < state.len()
        invariant
            is_matrix(state@, state.len() as nat, 1),
            rate <= state.len(),
            all_wf(padded@),
            off + rate <= padded.len(),
            j <= state.len(),
            is_matrix(r@, j as nat, 1),
            forall|j2: int|
                0 <= j2 < j ==> (#[trigger] r[j2])@[0]@ == absorb_block(
                    col(state@),
                    vals(padded@),
                    off as int,
                    rate as nat,
                )[j2],
        decreases state.len() - j,
    {
        assert(state[j as int]@.len() == 1 && all_wf(state[j as int]@));
        let x = state[j][0];
        assert(x.wf());
        let mut row: Vec<BaseFelt> = Vec::new();
        if j < rate {
            let y = padded[off + j];
            assert(y.wf());
            row.push(x.add(y));
        } else {
            row.push(x);
        }
        r.push(row);
        j += 1;
    }
    assert(col(r@) =~= absorb_block(col(state@), vals(padded@), off as int, rate as nat));
    r
}

/// The Rescue-XLIX sponge: fixed parameters and the input absorbed so far.
pub struct XLIX {
    generator: BaseFelt,
    c_p: usize,
    m: usize,
    rounds: usize,
    round_constants: Vec<BaseFelt>,
    digest_size: usize,
    mds: Vec<Vec<BaseFelt>>,
    input: Vec<BaseFelt>,
}

impl XLIX {
    pub closed spec fn generator(self) -> int {
        self.generator@
    }

    pub closed spec fn capacity(self) -> nat {
        self.c_p as nat
    }

    pub closed spec fn state_width(self) -> nat {
        self.m as nat
    }

    pub closed spec fn rounds(self) -> nat {
        self.rounds as nat
    }

    pub closed spec fn digest_size(self) -> nat {
        self.digest_size as nat
    }

    pub closed spec fn constants(self) -> Seq<BaseFelt> {
        self.round_constants@
    }

    pub closed spec fn mds(self) -> Seq<Vec<BaseFelt>> {
        self.mds@
    }

    /// The elements handed to `update` so far, in order.
    pub closed spec fn inputs(self) -> Seq<BaseFelt> {
        self.input@
    }

    pub open spec fn rate(self) -> nat {
        (self.state_width() - self.capacity()) as nat
    }

    pub open spec fn wf(self) -> bool {
        &&& self.capacity() < self.state_width()
        &&& is_matrix(self.mds(), self.state_width(), self.state_width())
        &&& self.constants().len() == 2 * self.state_width() * self.rounds()
        &&& all_wf(self.constants())
        &&& all_wf(self.inputs())
    }

    /// The parameters of `self` and `o` agree.
    pub open spec fn same_params(self, o: XLIX) -> bool {
        &&& self.generator() == o.generator()
        &&& self.capacity() == o.capacity()
        &&& self.state_width() == o.state_width()
        &&& self.rounds() == o.rounds()
        &&& self.digest_size() == o.digest_size()
        &&& self.constants() == o.constants()
        &&& self.mds() == o.mds()
    }

    /// All rounds of the permutation applied to `s`.
    pub open spec fn permutation(self, s: Seq<int>) -> Seq<int> {
        rounds_of(self.mds(), self.constants(), s, self.rounds())
    }

    /// The state after absorbing the first `blocks` blocks of `padded` into `s`.
    pub open spec fn absorb(self, s: Seq<int>, padded: Seq<int>, blocks: nat) -> Seq<int>
        decreases blocks,
    {
        if blocks == 0 {
            s
        } else {
            let prev = self.absorb(s, padded, (blocks - 1) as nat);
            self.permutation(absorb_block(prev, padded, (blocks - 1) * self.rate(), self.rate()))
        }
    }

    /// The number of elements of a digest.
    pub open spec fn digest_len(self) -> nat {
        if self.rate() < self.digest_size() {
            self.rate()
        } else {
            self.digest_size()
        }
    }

    /// The digest of the inputs so far.
    pub open spec fn digest(self) -> Seq<int> {
        let padded = pad(vals(self.inputs()), self.rate());
        let zero = Seq::new(self.state_width(), |j: int| 0);
        self.absorb(zero, padded, padded.len() / self.rate()).take(self.digest_len() as int)
    }

    /// A sponge of the given shape with round constants read from `stream`,
    /// the output of the extendable-output hash on the parameters' seed.
    pub fn new(
        generator: BaseFelt,
        capacity: usize,
        state_width: usize,
        rounds: usize,
        digest_size: usize,
        stream: &Vec<u8>,
    ) -> (r: XLIX)
        requires
            generator.wf(),
            capacity < state_width,
            state_width <= usize::MAX / 2,
            2 * state_width * rounds * BYTES_PER_INT <= stream.len(),
        ensures
            r.wf(),
            r.inputs() == Seq::<BaseFelt>::empty(),
            r.generator() == generator@,
            r.capacity() == capacity,
            r.state_width() == state_width,
            r.rounds() == rounds,
            r.digest_size() == digest_size,
            mview(r.mds()) == mds_of(generator@, state_width as nat),
            forall|k: int|
                0 <= k < r.constants().len() ==> (#[trigger] r.constants()[k])@ == chunk_value(
                    stream@,
                    k,
                ),
    {
        XLIX {
            generator,
            c_p: capacity,
            m: state_width,
            rounds,
            digest_size,
            round_constants: round_constants(stream, state_width, rounds),
            mds: get_mds_matrix(generator, state_width),
            input: Vec::new(),
        }
    }

    /// Appends one element to the input.
    pub fn update(&mut self, input: BaseFelt)
        requires
            old(self).wf(),
            input.wf(),
        ensures
            final(self).wf(),
            final(self).same_params(*old(self)),
            final(self).inputs() == old(self).inputs().push(input),
    {
        self.input.push(input)
    }

    /// Applies every round of the permutation to a state held as an
    /// `m x 1` column.
    pub fn permute(&self, state: &mut Vec<Vec<BaseFelt>>)
        requires
            self.wf(),
            is_matrix(old(state)@, self.state_width(), 1),
        ensures
            is_matrix(final(state)@, self.state_width(), 1),
            col(final(state)@) == self.permutation(col(old(state)@)),
    {
        let m = self.m;
        let mut i: usize = 0;
        while i < self.rounds
            invariant
                self.wf(),
                m == self.m,
                i <= self.rounds,
                is_matrix(state@, m as nat, 1),
                col(state@) == rounds_of(self.mds@, self.round_constants@, col(old(state)@), i as nat),
            decreases self.rounds - i,
        {
            assert(2 * m * i + 2 * m <= 2 * m * self.rounds) by (nonlinear_arith)
                requires
                    i < self.rounds,
            ;
            assert(self.round_constants.len() == 2 * m * self.rounds);
            assert(2 * m <= 2 * m * i + 2 * m) by (nonlinear_arith);
            assert(0 <= 2 * m * i) by (nonlinear_arith);
            let ghost s0 = col(state@);
            let a = sbox_layer(state, ALPHA);
            let b = mix_layer(&self.mds, &a);
            let off = 2 * m * i;
            let c = constants_layer(&b, &self.round_constants, off);
            let d = sbox_layer(&c, ALPHA_INV);
            let e = mix_layer(&self.mds, &d);
            let f = constants_layer(&e, &self.round_constants, off + m);
            *state = f;
            proof {
                assert(s0.len() == m);
                assert(col(state@) == round(self.mds@, self.round_constants@, s0, i as int));
            }
            i += 1;
        }
    }

    /// The digest of the input so far: pad, absorb block by block into a
    /// zero state, and read the first `min(rate, digest_size)` entries.
    pub fn finish(&self) -> (r: Vec<BaseFelt>)
        requires
            self.wf(),
            self.inputs().len() + 2 * self.state_width() <= usize::MAX,
        ensures
            all_wf(r@),
            r.len() == self.digest_len(),
            vals(r@) == self.digest(),
    {
        let rate = self.m - self.c_p;
        let ghost l = self.input.len();
        let mut input = copy_row(&self.input);
        input.push(BaseFelt::one());
        let extra = (rate - input.len() % rate) % rate;
        let mut k: usize = 0;
        while k < extra
            invariant
                self.wf(),
                rate == self.m - self.c_p,
                l == self.input.len(),
                l + 2 * self.m <= usize::MAX,
                extra < rate,
                k <= extra,
                input.len() == l + 1 + k,
                forall|t: int| 0 <= t < l ==> (#[trigger] input[t]) == self.input[t],
                input[l as int]@ == 1,
                forall|t: int| l < t < l + 1 + k ==> (#[trigger] input[t])@ == 0,
                all_wf(input@),
            decreases extra - k,
        {
            input.push(BaseFelt::zero());
            k += 1;
        }
        let ghost padded = pad(vals(self.input@), rate as nat);
        assert(vals(input@) =~= padded);
        proof {
            lemma_fundamental_div_mod((l + 1) as int, rate as int);
            lemma_mod_bound((l + 1) as int, rate as int);
            let q = (l + 1) / (rate as int);
            let rm = (l + 1) % (rate as int);
            assert(extra == (rate - rm) % (rate as int));
            if rm == 0 {
                lemma_mod_self_0(rate as int);
                assert(l + 1 + extra == q * rate) by (nonlinear_arith)
                    requires
                        l + 1 == rate * q + rm,
                        rm == 0,
                        extra == 0,
                ;
                lemma_mod_multiples_basic(q, rate as int);
            } else {
                lemma_small_mod((rate - rm) as nat, rate as nat);
                assert(l + 1 + extra == (q + 1) * rate) by (nonlinear_arith)
                    requires
                        l + 1 == rate * q + rm,
                        extra == rate - rm,
                ;
                lemma_mod_multiples_basic(q + 1, rate as int);
            }
            assert((l + 1 + extra) % (rate as int) == 0);
        }
        let mut state: Vec<Vec<BaseFelt>> = Vec::new();
        let mut j: usize = 0;
        while j < self.m
            invariant
                j <= self.m,
                is_matrix(state@, j as nat, 1),
                forall|j2: int| 0 <= j2 < j ==> (#[trigger] state[j2])@[0]@ == 0,
            decreases self.m - j,
        {
            let mut row: Vec<BaseFelt> = Vec::new();
            row.push(BaseFelt::zero());
            state.push(row);
            j += 1;
        }
        let ghost zero = Seq::new(self.m as nat, |j: int| 0int);
        assert(col(state@) =~= zero);
        let ghost q = input.len() / rate;
        proof {
            lemma_fundamental_div_mod(input.len() as int, rate as int);
        }
        let mut idx: usize = 0;
        let ghost mut blocks: nat = 0;
        while idx < input.len()
            invariant
                self.wf(),
                rate == self.m - self.c_p,
                0 < rate,
                input.len() == q * rate,
                vals(input@) == padded,
                all_wf(input@),
                idx == blocks * rate,
                blocks <= q,
                is_matrix(state@, self.m as nat, 1),
                col(state@) == self.absorb(zero, padded, blocks),
            decreases input.len() - idx,
        {
            assert(idx + rate <= input.len()) by (nonlinear_arith)
                requires
                    idx == blocks * rate,
                    input.len() == q * rate,
                    idx < input.len(),
                    0 < rate,
            ;
            state = absorb_layer(&state, &input, idx, rate);
            self.permute(&mut state);
            idx += rate;
            proof {
                blocks = blocks + 1;
                assert(idx == blocks * rate) by (nonlinear_arith)
                    requires
                        idx == (blocks - 1) * rate + rate,
                ;
                assert(blocks <= q) by (nonlinear_arith)
                    requires
                        blocks * rate <= q * rate,
                        0 < rate,
                ;
            }
        }
        proof {
            assert(blocks == q) by (nonlinear_arith)
                requires
                    blocks * rate >= q * rate,
                    blocks <= q,
                    0 < rate,
            ;
            assert(padded.len() / (rate as nat) == q);
        }
        let n = if rate < self.digest_size {
            rate
        } else {
            self.digest_size
        };
        let mut out: Vec<BaseFelt> = Vec::new();
        let mut i: usize = 0;
        while i < n
            invariant
                n <= rate,
                rate <= self.m,
                is_matrix(state@, self.m as nat, 1),
                i <= n,
                out.len() == i,
                all_wf(out@),
                forall|i2: int| 0 <= i2 < i ==> (#[trigger] out[i2])@ == col(state@)[i2],
            decreases n - i,
        {
            assert(state[i as int]@.len() == 1 && all_wf(state[i as int]@));
            out.push(state[i][0]);
            i += 1;
        }
        assert(vals(out@) =~= col(state@).take(n as int));
        out
    }
}


proof fn lemma_vals_injective(a: Seq<BaseFelt>, b: Seq<BaseFelt>)
    requires
        vals(a) == vals(b),
    ensures
        a == b,
{
    assert(a.len() == vals(a).len());
    assert(b.len() == vals(b).len());
    assert forall|i: int| 0 <= i < a.len() implies a[i] == b[i] by {
        assert(vals(a)[i] == vals(b)[i]);
        assert(vals(a)[i] == a[i]@);
        assert(vals(b)[i] == b[i]@);
        assert(a[i].value == b[i].value);
    }
    assert(a =~= b);
}

/// The padded input is `ceil((L + 1) / rate) * rate` long, for an input of
/// length `L`.
pub proof fn lemma_pad_len(input: Seq<int>, rate: nat)
    requires
        rate > 0,
    ensures
        pad(input, rate).len() == ((input.len() + rate) / rate) * rate,
{
    let l = input.len() as int;
    let r = rate as int;
    let q = (l + 1) / r;
    let rm = (l + 1) % r;
    let extra = (r - rm) % r;
    lemma_fundamental_div_mod(l + 1, r);
    lemma_mod_bound(l + 1, r);
    assert(pad(input, rate).len() == l + 1 + extra);
    if rm == 0 {
        lemma_mod_self_0(r);
        assert(l + r == q * r + (r - 1)) by (nonlinear_arith)
            requires
                l + 1 == r * q + rm,
                rm == 0,
        ;
        lemma_fundamental_div_mod_converse_div(l + r, r, q, r - 1);
        assert(l + 1 + extra == q * r) by (nonlinear_arith)
            requires
                l + 1 == r * q + rm,
                rm == 0,
                extra == 0,
        ;
    } else {
        lemma_small_mod((r - rm) as nat, rate);
        assert(l + r == (q + 1) * r + (rm - 1)) by (nonlinear_arith)
            requires
                l + 1 == r * q + rm,
        ;
        lemma_fundamental_div_mod_converse_div(l + r, r, q + 1, rm - 1);
        assert(l + 1 + extra == (q + 1) * r) by (nonlinear_arith)
            requires
                l + 1 == r * q + rm,
                extra == r - rm,
        ;
    }
}

/// Two derivations of round constants from the same stream and shape give
/// the same sequence.
pub proof fn lemma_round_constants_deterministic(
    stream: Seq<u8>,
    count: nat,
    a: Seq<BaseFelt>,
    b: Seq<BaseFelt>,
)
    requires
        a.len() == count,
        b.len() == count,
        forall|k: int| 0 <= k < count ==> (#[trigger] a[k])@ == chunk_value(stream, k),
        forall|k: int| 0 <= k < count ==> (#[trigger] b[k])@ == chunk_value(stream, k),
    ensures
        a == b,
{
    assert(vals(a) =~= vals(b));
    lemma_vals_injective(a, b);
}

/// Two digests of the same sponge state are identical.
pub proof fn lemma_finish_idempotent(h: XLIX, a: Seq<BaseFelt>, b: Seq<BaseFelt>)
    requires
        vals(a) == h.digest(),
        vals(b) == h.digest(),
    ensures
        a == b,
{
    lemma_vals_injective(a, b);
}


proof fn lemma_absorb_same(a: XLIX, b: XLIX, s: Seq<int>, padded: Seq<int>, blocks: nat)
    requires
        a.same_params(b),
    ensures
        a.absorb(s, padded, blocks) == b.absorb(s, padded, blocks),
    decreases blocks,
{
    if blocks > 0 {
        lemma_absorb_same(a, b, s, padded, (blocks - 1) as nat);
    }
}

/// Two sponges with the same parameters that were handed the same inputs
/// give the same digest.
pub proof fn lemma_digest_reproducible(a: XLIX, b: XLIX)
    requires
        a.same_params(b),
        a.inputs() == b.inputs(),
    ensures
        a.digest() == b.digest(),
{
    let padded = pad(vals(a.inputs()), a.rate());
    let zero = Seq::new(a.state_width(), |j: int| 0);
    lemma_absorb_same(a, b, zero, padded, padded.len() / a.rate());
}

} // verus!
