use vstd::prelude::*;
use vstd::arithmetic::power2::*;
use vstd::arithmetic::div_mod::*;
use vstd::arithmetic::mul::*;

use crate::arith::{
    barrett_cr_high,
    barrett_cr_low,
    barrett_reduction_u128,
    ceil_log2,
    floor_log2,
    get_barrett,
    get_barrett_crs,
    log2,
    log2_ceil,
    log2_ceil_usize,
    lemma_ceil_log2_bounds,
    lemma_floor_log2_bounds,
};
use crate::number_theory::{
    invert_uint_mod,
    invertible,
    is_mod_inverse,
    lemma_mod_inverse_is,
    mod_inverse,
};
use crate::ntt::{build_ntt_tables, build_ntt_tables_alt, is_ntt_table, ntt_modulus_ok};

verus! {

/// The most CRT moduli a parameter set can have.
pub const MAX_MODULI: usize = 4;

/// The smallest accepted number of bits of the second-level modulus.
pub const MIN_Q2_BITS: u64 = 14;

/// For each bit count, the NTT-friendly second-level modulus of that many
/// bits (0 below `MIN_Q2_BITS`).
pub const Q2_VALUES: [u64; 37] = [
    0,
    0,
    0,
    0,
    0,
    0,
    0,
    0,
    0,
    0,
    0,
    0,
    0,
    0,
    12289,
    12289,
    61441,
    65537,
    65537,
    520193,
    786433,
    786433,
    3604481,
    7340033,
    16515073,
    33292289,
    67043329,
    132120577,
    268369921,
    469762049,
    1073479681,
    2013265921,
    4293918721,
    8588886017,
    17175674881,
    34359214081,
    68718428161,
];

/// Bytes of the seed that stands in for the pseudorandom half of each
/// compressed ciphertext.
pub const SEED_LENGTH: usize = 32;

/// The largest number of first-dimension bits that one query ciphertext
/// is expanded into.
pub const MAX_EXP_DIM: usize = 8;

/// The parameters of a PIR scheme instance, with the values derived from them.
#[derive(Debug, PartialEq, Clone)]
pub struct Params {
    pub poly_len: usize,
    pub poly_len_log2: usize,
    pub ntt_tables: Vec<Vec<Vec<u64>>>,
    pub scratch: Vec<u64>,
    pub crt_count: usize,
    pub barrett_cr_0: [u64; MAX_MODULI],
    pub barrett_cr_1: [u64; MAX_MODULI],
    pub barrett_cr_0_modulus: u64,
    pub barrett_cr_1_modulus: u64,
    pub mod0_inv_mod1: u64,
    pub mod1_inv_mod0: u64,
    pub moduli: [u64; MAX_MODULI],
    pub modulus: u64,
    pub modulus_log2: u64,
    /// The noise width, as the bit pattern of an IEEE-754 double.
    pub noise_width_bits: u64,
    pub n: usize,
    pub pt_modulus: u64,
    pub q2_bits: u64,
    pub t_conv: usize,
    pub t_exp_left: usize,
    pub t_exp_right: usize,
    pub t_gsw: usize,
    pub expand_queries: bool,
    pub db_dim_1: usize,
    pub db_dim_2: usize,
    pub instances: usize,
    pub db_item_size: usize,
    pub version: usize,
}

/// The product of a sequence of moduli.
pub open spec fn product(s: Seq<u64>) -> nat
    decreases s.len(),
{
    if s.len() == 0 {
        1
    } else {
        product(s.drop_last()) * (s.last() as nat)
    }
}

/// With no factor 0, a prefix has at most the product of the whole.
proof fn lemma_product_prefix_le(s: Seq<u64>, i: int)
    requires
        0 <= i <= s.len(),
        forall|j: int| 0 <= j < s.len() ==> s[j] >= 1,
    ensures
        product(s.subrange(0, i)) <= product(s),
    decreases s.len(),
{
    if i == s.len() {
        assert(s.subrange(0, i) =~= s);
    } else {
        let t = s.drop_last();
        assert(t.subrange(0, i) =~= s.subrange(0, i));
        lemma_product_prefix_le(t, i);
        assert(product(t) <= product(t) * (s.last() as nat)) by (nonlinear_arith)
            requires
                s.last() >= 1,
        ;
    }
}

/// With no factor 0, the product is positive.
proof fn lemma_product_positive(s: Seq<u64>)
    requires
        forall|j: int| 0 <= j < s.len() ==> s[j] >= 1,
    ensures
        product(s) >= 1,
    decreases s.len(),
{
    if s.len() > 0 {
        lemma_product_positive(s.drop_last());
        assert(product(s.drop_last()) * (s.last() as nat) >= 1) by (nonlinear_arith)
            requires
                product(s.drop_last()) >= 1,
                s.last() >= 1,
        ;
    }
}

/// Division rounded up as `f64::ceil(a as f64 / b as f64) as usize` gives it
/// (exact below 2^53): a zero divisor gives `usize::MAX`, or 0 for `0 / 0`.
pub open spec fn ceil_div_saturating(a: nat, b: nat) -> nat {
    if b == 0 {
        if a == 0 {
            0
        } else {
            usize::MAX as nat
        }
    } else {
        ((a + b - 1) as int / b as int) as nat
    }
}

fn div_ceil_saturating(a: usize, b: usize) -> (r: usize)
    ensures
        r == ceil_div_saturating(a as nat, b as nat),
{
    if b == 0 {
        if a == 0 {
            0
        } else {
            usize::MAX
        }
    } else {
        let q = a / b;
        proof {
            lemma_fundamental_div_mod(a as int, b as int);
            lemma_mul_is_commutative(q as int, b as int);
            assert(((a + b - 1) as int) / (b as int) == q + (if a % b == 0 { 0int } else { 1int })) by {
                if a % b == 0 {
                    lemma_fundamental_div_mod_converse_div(
                        (a + b - 1) as int,
                        b as int,
                        q as int,
                        (b - 1) as int,
                    );
                } else {
                    assert((q + 1) * b == q * b + b) by (nonlinear_arith);
                    lemma_fundamental_div_mod_converse_div(
                        (a + b - 1) as int,
                        b as int,
                        q + 1,
                        (a % b - 1) as int,
                    );
                }
            }
            if a % b != 0 {
                lemma_div_is_ordered_by_denominator(a as int, 2, b as int);
            }
        }
        if a % b == 0 {
            q
        } else {
            q + 1
        }
    }
}

impl Params {
    // ---- the values that the parameter set derives, as spec functions ----

    /// Number of expanded first-dimension ciphertexts: `2^db_dim_1`.
    pub open spec fn spec_num_expanded(&self) -> nat {
        pow2(self.db_dim_1 as nat)
    }

    /// Bits of the plaintext modulus (floor of its base-2 logarithm).
    pub open spec fn spec_logp(&self) -> nat {
        floor_log2(self.pt_modulus as nat)
    }

    /// Item size in bytes before the final division by 8.
    pub open spec fn spec_item_bits(&self) -> nat {
        self.instances as nat * self.n as nat * self.n as nat * self.poly_len as nat
            * self.spec_logp()
    }

    pub open spec fn spec_item_size(&self) -> nat {
        self.spec_item_bits() / 8
    }

    /// The bits to generate in query expansion.
    pub open spec fn spec_bits_to_gen(&self) -> nat {
        self.t_gsw as nat * self.db_dim_2 as nat + self.spec_num_expanded()
    }

    pub open spec fn spec_g(&self) -> nat {
        ceil_log2(self.spec_bits_to_gen())
    }

    pub open spec fn spec_stop_round(&self) -> nat {
        ceil_log2(self.t_gsw as nat * self.db_dim_2 as nat)
    }

    pub open spec fn spec_num_packing_mats(&self) -> nat {
        if self.version == 0 {
            self.n as nat
        } else {
            2
        }
    }

    pub open spec fn spec_packing_sz(&self) -> nat {
        self.n as nat * self.t_conv as nat
    }

    pub open spec fn spec_expansion_left_sz(&self) -> nat {
        let g = self.spec_g();
        (if g < MAX_EXP_DIM { g } else { MAX_EXP_DIM as nat }) * self.t_exp_left as nat
    }

    /// The right expansion size as first computed, before version 1 drops it.
    pub open spec fn spec_expansion_right_full(&self) -> nat {
        (self.spec_stop_round() + 1) * self.t_exp_right as nat
    }

    pub open spec fn spec_expansion_right_sz(&self) -> nat {
        if self.version > 0 && self.t_exp_left == self.t_exp_right {
            0
        } else {
            self.spec_expansion_right_full()
        }
    }

    /// Number of polynomials in the public parameters.
    pub open spec fn spec_setup_polys(&self) -> nat {
        self.spec_num_packing_mats() * self.spec_packing_sz() + if self.expand_queries {
            self.spec_expansion_left_sz() + self.spec_expansion_right_sz() + 2 * (self.t_conv as nat)
        } else {
            0
        }
    }

    pub open spec fn spec_setup_bytes(&self) -> nat {
        SEED_LENGTH as nat + self.spec_setup_polys() * self.poly_len as nat * 8
    }

    pub open spec fn spec_num_query_cts(&self) -> nat {
        if self.db_dim_1 > MAX_EXP_DIM {
            pow2((self.db_dim_1 - MAX_EXP_DIM) as nat)
        } else {
            1
        }
    }

    /// Number of polynomials in a query.
    pub open spec fn spec_query_polys(&self) -> nat {
        if self.expand_queries {
            self.spec_num_query_cts()
        } else {
            self.db_dim_1 as nat * 2 * self.t_gsw as nat
        }
    }

    pub open spec fn spec_query_bytes(&self) -> nat {
        SEED_LENGTH as nat + self.spec_query_polys() * self.poly_len as nat * 8
    }

    pub open spec fn spec_bytes_per_chunk(&self) -> nat {
        ceil_div_saturating(
            self.db_item_size as nat,
            self.instances as nat * (self.n as nat * self.n as nat),
        )
    }

    pub open spec fn spec_modp_words_per_chunk(&self) -> nat {
        ceil_div_saturating(self.spec_bytes_per_chunk() * 8, self.spec_logp())
    }

    /// `x * mod1_inv_mod0 + y * mod0_inv_mod1`, the value that CRT
    /// composition reduces.
    pub open spec fn spec_crt_sum(&self, x: u64, y: u64) -> int {
        x as int * self.mod1_inv_mod0 as int + y as int * self.mod0_inv_mod1 as int
    }

    pub open spec fn spec_crt_compose_2(&self, x: u64, y: u64) -> int {
        self.spec_crt_sum(x, y) % (self.modulus as int)
    }

    // ---- what each computation needs to stay within machine words ----

    pub open spec fn item_size_fits(&self) -> bool {
        &&& self.pt_modulus > 0
        &&& self.instances * self.n <= usize::MAX
        &&& self.instances * self.n * self.n <= usize::MAX
        &&& self.instances * self.n * self.n * self.poly_len <= usize::MAX
        &&& self.spec_item_bits() <= usize::MAX
    }

    pub open spec fn g_fits(&self) -> bool {
        &&& self.db_dim_1 < usize::BITS
        &&& self.t_gsw * self.db_dim_2 + pow2(self.db_dim_1 as nat) <= usize::MAX
    }

    pub open spec fn stop_round_fits(&self) -> bool {
        self.t_gsw * self.db_dim_2 <= usize::MAX
    }

    pub open spec fn setup_bytes_fits(&self) -> bool {
        &&& self.n + 1 <= usize::MAX
        &&& self.spec_packing_sz() <= usize::MAX
        &&& self.spec_num_packing_mats() * self.spec_packing_sz() <= usize::MAX
        &&& self.expand_queries ==> {
            &&& self.g_fits()
            &&& self.stop_round_fits()
            &&& self.spec_expansion_left_sz() <= usize::MAX
            &&& self.spec_expansion_right_full() <= usize::MAX
            &&& 2 * self.t_conv <= usize::MAX
            &&& self.spec_num_packing_mats() * self.spec_packing_sz()
                + self.spec_expansion_left_sz() + self.spec_expansion_right_sz() + 2
                * self.t_conv <= usize::MAX
        }
        &&& self.spec_setup_polys() * self.poly_len <= usize::MAX
        &&& self.spec_setup_bytes() <= usize::MAX
    }

    pub open spec fn query_bytes_fits(&self) -> bool {
        &&& self.db_dim_1 > MAX_EXP_DIM ==> self.db_dim_1 - MAX_EXP_DIM < usize::BITS
        &&& !self.expand_queries ==> self.db_dim_1 * 2 <= usize::MAX
        &&& self.spec_query_polys() <= usize::MAX
        &&& self.spec_query_polys() * self.poly_len <= usize::MAX
        &&& self.spec_query_bytes() <= usize::MAX
    }

    pub open spec fn chunk_fits(&self) -> bool {
        &&& self.n * self.n <= usize::MAX
        &&& self.instances * (self.n * self.n) <= usize::MAX
    }

    /// The two-modulus CRT data as `init` builds it: `modulus` is the
    /// product of the two moduli, and `mod0_inv_mod1` (`mod1_inv_mod0`) is
    /// the first (second) modulus times its inverse modulo the other one.
    pub open spec fn crt_pair_wf(&self) -> bool {
        let m0 = self.moduli[0] as int;
        let m1 = self.moduli[1] as int;
        &&& self.crt_count == 2
        &&& m0 > 1
        &&& m1 > 1
        &&& self.modulus == m0 * m1
        &&& is_mod_inverse(mod_inverse(m0, m1), m0, m1)
        &&& is_mod_inverse(mod_inverse(m1, m0), m1, m0)
        &&& self.mod0_inv_mod1 == m0 * mod_inverse(m0, m1)
        &&& self.mod1_inv_mod0 == m1 * mod_inverse(m1, m0)
    }
}

impl Params {
    /// Builds a parameter set and derives its tables and constants.
    ///
    /// The NTT tables use moduli below 2^32 when there are several moduli,
    /// and 64-bit arithmetic for a single modulus.
    pub fn init(
        poly_len: usize,
        moduli: &[u64],
        noise_width_bits: u64,
        n: usize,
        pt_modulus: u64,
        q2_bits: u64,
        t_conv: usize,
        t_exp_left: usize,
        t_exp_right: usize,
        t_gsw: usize,
        expand_queries: bool,
        db_dim_1: usize,
        db_dim_2: usize,
        instances: usize,
        db_item_size: usize,
        version: usize,
    ) -> (p: Self)
        requires
            q2_bits >= MIN_Q2_BITS,
            poly_len > 0,
            poly_len == pow2(floor_log2(poly_len as nat)),
            2 * poly_len <= u64::MAX,
            moduli.len() <= MAX_MODULI,
            moduli.len() * poly_len <= usize::MAX,
            forall|i: int|
                0 <= i < moduli.len() ==> ntt_modulus_ok(
                    #[trigger] moduli[i] as int,
                    poly_len as nat,
                    moduli.len() > 1,
                ),
            product(moduli@) <= u64::MAX,
            moduli.len() == 2 ==> invertible(moduli[0] as nat, moduli[1] as nat) && invertible(
                moduli[1] as nat,
                moduli[0] as nat,
            ),
        ensures
            p.poly_len == poly_len,
            p.poly_len_log2 == floor_log2(poly_len as nat),
            p.crt_count == moduli.len(),
            p.ntt_tables@.len() == moduli.len(),
            forall|i: int|
                0 <= i < moduli.len() ==> is_ntt_table(
                    #[trigger] p.ntt_tables@[i],
                    moduli[i] as int,
                    floor_log2(poly_len as nat),
                    moduli.len() > 1,
                ),
            p.scratch@.len() == moduli.len() * poly_len,
            forall|i: int| 0 <= i < p.scratch@.len() ==> p.scratch@[i] == 0,
            forall|i: int| 0 <= i < moduli.len() ==> p.moduli[i] == moduli[i],
            forall|i: int| moduli.len() <= i < MAX_MODULI ==> p.moduli[i] == 0,
            p.modulus == product(moduli@),
            p.modulus_log2 == ceil_log2(p.modulus as nat),
            forall|i: int|
                0 <= i < moduli.len() ==> p.barrett_cr_0[i] == barrett_cr_low(moduli[i] as int)
                    && p.barrett_cr_1[i] == barrett_cr_high(moduli[i] as int),
            forall|i: int|
                moduli.len() <= i < MAX_MODULI ==> p.barrett_cr_0[i] == 0 && p.barrett_cr_1[i] == 0,
            p.barrett_cr_0_modulus == barrett_cr_low(p.modulus as int),
            p.barrett_cr_1_modulus == barrett_cr_high(p.modulus as int),
            moduli.len() == 2 ==> p.crt_pair_wf(),
            moduli.len() != 2 ==> p.mod0_inv_mod1 == 0 && p.mod1_inv_mod0 == 0,
            p.noise_width_bits == noise_width_bits,
            p.n == n,
            p.pt_modulus == pt_modulus,
            p.q2_bits == q2_bits,
            p.t_conv == t_conv,
            p.t_exp_left == t_exp_left,
            p.t_exp_right == t_exp_right,
            p.t_gsw == t_gsw,
            p.expand_queries == expand_queries,
            p.db_dim_1 == db_dim_1,
            p.db_dim_2 == db_dim_2,
            p.instances == instances,
            p.db_item_size == db_item_size,
            p.version == version,
    {
        let lg = log2(poly_len as u64);
        proof {
            lemma_floor_log2_bounds(poly_len as nat);
            lemma2_to64();
            lemma2_to64_rest();
            if lg >= usize::BITS {
                if lg > usize::BITS {
                    lemma_pow2_strictly_increases(usize::BITS as nat, lg as nat);
                }
                assert(usize::BITS == 32 || usize::BITS == 64);
            }
        }
        let poly_len_log2 = lg as usize;
        let crt_count = moduli.len();
        let mut moduli_array: [u64; MAX_MODULI] = [0, 0, 0, 0];
        let mut i: usize = 0;
        while i < crt_count
            invariant
                crt_count == moduli.len() <= MAX_MODULI,
                i <= crt_count,
                forall|j: int| 0 <= j < i ==> moduli_array[j] == moduli[j],
                forall|j: int| i <= j < MAX_MODULI ==> moduli_array[j] == 0,
            decreases crt_count - i,
        {
            moduli_array[i] = moduli[i];
            i = i + 1;
        }
        let ntt_tables = if crt_count > 1 {
            build_ntt_tables(poly_len, moduli)
        } else {
            build_ntt_tables_alt(poly_len, moduli)
        };
        let scratch = vec![0u64; crt_count * poly_len];
        proof {
            assert forall|j: int| 0 <= j < moduli.len() implies moduli@[j] >= 1 by {
                assert(ntt_modulus_ok(moduli[j] as int, poly_len as nat, moduli.len() > 1));
            }
        }
        let mut modulus: u64 = 1;
        let mut k: usize = 0;
        while k < crt_count
            invariant
                crt_count == moduli.len(),
                k <= crt_count,
                forall|j: int| 0 <= j < moduli.len() ==> moduli@[j] >= 1,
                product(moduli@) <= u64::MAX,
                modulus == product(moduli@.subrange(0, k as int)),
            decreases crt_count - k,
        {
            proof {
                let next = moduli@.subrange(0, k + 1);
                assert(next.drop_last() =~= moduli@.subrange(0, k as int));
                lemma_product_prefix_le(moduli@, k + 1);
            }
            modulus = modulus * moduli[k];
            k = k + 1;
        }
        proof {
            assert(moduli@.subrange(0, crt_count as int) =~= moduli@);
        }
        let modulus_log2 = log2_ceil(modulus);
        let (barrett_cr_0, barrett_cr_1) = get_barrett(moduli);
        proof {
            assert(modulus > 0) by {
                if moduli.len() > 0 {
                    lemma_product_prefix_le(moduli@, 0);
                    assert(moduli@.subrange(0, 0) =~= Seq::<u64>::empty());
                }
                assert(product(Seq::<u64>::empty()) == 1);
                lemma_product_positive(moduli@);
            }
        }
        let (barrett_cr_0_modulus, barrett_cr_1_modulus) = get_barrett_crs(modulus);
        let mut mod0_inv_mod1: u64 = 0;
        let mut mod1_inv_mod0: u64 = 0;
        if crt_count == 2 {
            let m0 = moduli[0];
            let m1 = moduli[1];
            proof {
                assert(moduli@.drop_last() =~= seq![m0]);
                assert(seq![m0].drop_last() =~= Seq::<u64>::empty());
                assert(product(Seq::<u64>::empty()) == 1);
                assert(seq![m0].len() == 1 && seq![m0].last() == m0);
                assert(product(seq![m0]) == product(Seq::<u64>::empty()) * (m0 as nat));
                assert(product(seq![m0]) == m0);
                assert(moduli@.last() == m1);
                assert(product(moduli@) == m0 * m1);
                assert(ntt_modulus_ok(m0 as int, poly_len as nat, true));
                assert(ntt_modulus_ok(m1 as int, poly_len as nat, true));
            }
            let inv0 = invert_uint_mod(m0, m1).unwrap();
            let inv1 = invert_uint_mod(m1, m0).unwrap();
            proof {
                lemma_mod_inverse_is(m0 as int, m1 as int, inv0 as int);
                lemma_mod_inverse_is(m1 as int, m0 as int, inv1 as int);
                assert(m0 * inv0 <= m0 * m1) by (nonlinear_arith)
                    requires
                        inv0 < m1,
                ;
                assert(m1 * inv1 <= m1 * m0) by (nonlinear_arith)
                    requires
                        inv1 < m0,
                ;
                assert(m1 * m0 == m0 * m1) by (nonlinear_arith);
            }
            mod0_inv_mod1 = m0 * inv0;
            mod1_inv_mod0 = m1 * inv1;
        }
        Params {
            poly_len,
            poly_len_log2,
            ntt_tables,
            scratch,
            crt_count,
            barrett_cr_0,
            barrett_cr_1,
            barrett_cr_0_modulus,
            barrett_cr_1_modulus,
            mod0_inv_mod1,
            mod1_inv_mod0,
            moduli: moduli_array,
            modulus,
            modulus_log2,
            noise_width_bits,
            n,
            pt_modulus,
            q2_bits,
            t_conv,
            t_exp_left,
            t_exp_right,
            t_gsw,
            expand_queries,
            db_dim_1,
            db_dim_2,
            instances,
            db_item_size,
            version,
        }
    }
}

impl Params {
    /// The bit-reversed powers of the root of unity for modulus `i`.
    pub fn get_ntt_forward_table(&self, i: usize) -> (r: &[u64])
        requires
            i < self.ntt_tables@.len(),
            self.ntt_tables@[i as int]@.len() == 4,
        ensures
            r@ == self.ntt_tables@[i as int]@[0]@,
    {
        self.ntt_tables[i][0].as_slice()
    }

    /// The scaled forms of the forward table of modulus `i`.
    pub fn get_ntt_forward_prime_table(&self, i: usize) -> (r: &[u64])
        requires
            i < self.ntt_tables@.len(),
            self.ntt_tables@[i as int]@.len() == 4,
        ensures
            r@ == self.ntt_tables@[i as int]@[1]@,
    {
        self.ntt_tables[i][1].as_slice()
    }

    /// The halved bit-reversed powers of the inverse root for modulus `i`.
    pub fn get_ntt_inverse_table(&self, i: usize) -> (r: &[u64])
        requires
            i < self.ntt_tables@.len(),
            self.ntt_tables@[i as int]@.len() == 4,
        ensures
            r@ == self.ntt_tables@[i as int]@[2]@,
    {
        self.ntt_tables[i][2].as_slice()
    }

    /// The scaled forms of the inverse table of modulus `i`.
    pub fn get_ntt_inverse_prime_table(&self, i: usize) -> (r: &[u64])
        requires
            i < self.ntt_tables@.len(),
            self.ntt_tables@[i as int]@.len() == 4,
        ensures
            r@ == self.ntt_tables@[i as int]@[3]@,
    {
        self.ntt_tables[i][3].as_slice()
    }

    /// Shape of the GSW secret key: `n` rows, 1 column.
    pub fn get_sk_gsw(&self) -> (r: (usize, usize))
        ensures
            r == (self.n, 1usize),
    {
        (self.n, 1)
    }

    /// Shape of the regular secret key: 1 by 1.
    pub fn get_sk_reg(&self) -> (r: (usize, usize))
        ensures
            r == (1usize, 1usize),
    {
        (1, 1)
    }

    /// Number of first-dimension ciphertexts after expansion: `2^db_dim_1`.
    pub fn num_expanded(&self) -> (r: usize)
        requires
            self.db_dim_1 < usize::BITS,
        ensures
            r == self.spec_num_expanded(),
    {
        proof {
            vstd::bits::lemma_usize_pow2_no_overflow(self.db_dim_1 as nat);
            vstd::bits::lemma_usize_shl_is_mul(1, self.db_dim_1);
        }
        1 << self.db_dim_1
    }

    /// Number of database items: `2^db_dim_1 * 2^db_dim_2`.
    pub fn num_items(&self) -> (r: usize)
        requires
            self.db_dim_1 < usize::BITS,
            self.db_dim_2 < usize::BITS,
            pow2(self.db_dim_1 as nat) * pow2(self.db_dim_2 as nat) <= usize::MAX,
        ensures
            r == pow2(self.db_dim_1 as nat) * pow2(self.db_dim_2 as nat),
    {
        proof {
            vstd::bits::lemma_usize_pow2_no_overflow(self.db_dim_1 as nat);
            vstd::bits::lemma_usize_shl_is_mul(1, self.db_dim_1);
            vstd::bits::lemma_usize_pow2_no_overflow(self.db_dim_2 as nat);
            vstd::bits::lemma_usize_shl_is_mul(1, self.db_dim_2);
        }
        (1 << self.db_dim_1) * (1 << self.db_dim_2)
    }

    /// Bytes of one item:
    /// `instances * n * n * poly_len * floor(log2(pt_modulus)) / 8`.
    pub fn item_size(&self) -> (r: usize)
        requires
            self.item_size_fits(),
        ensures
            r == self.spec_item_size(),
    {
        let lg = log2(self.pt_modulus);
        proof {
            lemma_floor_log2_bounds(self.pt_modulus as nat);
            assert(lg < 64) by {
                lemma2_to64_rest();
                if lg >= 64 {
                    if lg > 64 {
                        lemma_pow2_strictly_increases(64, lg as nat);
                    }
                }
            }
        }
        let logp = lg as usize;
        self.instances * self.n * self.n * self.poly_len * logp / 8
    }

    /// Number of expansion rounds: `ceil(log2(t_gsw * db_dim_2 + 2^db_dim_1))`.
    pub fn g(&self) -> (r: usize)
        requires
            self.g_fits(),
        ensures
            r == self.spec_g(),
    {
        let num_bits_to_gen = self.t_gsw * self.db_dim_2 + self.num_expanded();
        log2_ceil_usize(num_bits_to_gen)
    }

    /// The round at which right expansion stops:
    /// `ceil(log2(t_gsw * db_dim_2))`.
    pub fn stop_round(&self) -> (r: usize)
        requires
            self.stop_round_fits(),
        ensures
            r == self.spec_stop_round(),
    {
        log2_ceil_usize(self.t_gsw * self.db_dim_2)
    }

    /// 1 where there is no second dimension, else 2.
    pub fn factor_on_first_dim(&self) -> (r: usize)
        ensures
            r == (if self.db_dim_2 == 0 {
                1usize
            } else {
                2usize
            }),
    {
        if self.db_dim_2 == 0 {
            1
        } else {
            2
        }
    }

    /// Bytes of the public parameters that a client uploads.
    pub fn setup_bytes(&self) -> (r: usize)
        requires
            self.setup_bytes_fits(),
        ensures
            r == self.spec_setup_bytes(),
    {
        let mut sz_polys: usize = 0;

        let num_packing_mats = if self.version == 0 {
            self.n
        } else {
            2
        };
        let packing_sz = ((self.n + 1) - 1) * self.t_conv;
        sz_polys += num_packing_mats * packing_sz;

        if self.expand_queries {
            let expansion_left_sz = self.g().min(MAX_EXP_DIM) * self.t_exp_left;
            let stop_round = self.stop_round();
            proof {
                if self.t_gsw * self.db_dim_2 >= 1 {
                    crate::arith::lemma_log2_below_64((self.t_gsw * self.db_dim_2) as nat);
                }
            }
            let mut expansion_right_sz = (stop_round + 1) * self.t_exp_right;
            let conversion_sz = 2 * self.t_conv;

            if self.version > 0 && self.t_exp_left == self.t_exp_right {
                expansion_right_sz = 0;
            }

            sz_polys += expansion_left_sz + expansion_right_sz + conversion_sz;
        }

        proof {
            broadcast use vstd::layout::layout_of_primitives;

        }
        let sz_bytes = sz_polys * self.poly_len * core::mem::size_of::<u64>();
        SEED_LENGTH + sz_bytes
    }

    /// Bytes of one query.
    pub fn query_bytes(&self) -> (r: usize)
        requires
            self.query_bytes_fits(),
        ensures
            r == self.spec_query_bytes(),
    {
        let sz_polys;
        let num_query_cts = if self.db_dim_1 > MAX_EXP_DIM {
            proof {
                vstd::bits::lemma_usize_pow2_no_overflow((self.db_dim_1 - MAX_EXP_DIM) as nat);
                vstd::bits::lemma_usize_shl_is_mul(1, (self.db_dim_1 - MAX_EXP_DIM) as usize);
            }
            1usize << (self.db_dim_1 - MAX_EXP_DIM)
        } else {
            1
        };

        if self.expand_queries {
            sz_polys = num_query_cts;
        } else {
            sz_polys = self.db_dim_1 * 2 * self.t_gsw;
        }

        proof {
            broadcast use vstd::layout::layout_of_primitives;

        }
        let sz_bytes = sz_polys * self.poly_len * core::mem::size_of::<u64>();
        SEED_LENGTH + sz_bytes
    }

    /// Bytes of the expanded first-dimension query buffer.
    pub fn query_v_buf_bytes(&self) -> (r: usize)
        requires
            self.db_dim_1 < usize::BITS,
            self.spec_num_expanded() * self.poly_len * 8 <= usize::MAX,
        ensures
            r == self.spec_num_expanded() * self.poly_len * 8,
    {
        let ne = self.num_expanded();
        proof {
            broadcast use vstd::layout::layout_of_primitives;

            assert(ne * self.poly_len <= ne * self.poly_len * 8) by (nonlinear_arith);
        }
        ne * self.poly_len * core::mem::size_of::<u64>()
    }

    /// Bytes of an item that each of the `instances * n * n` chunks holds,
    /// rounded up.
    pub fn bytes_per_chunk(&self) -> (r: usize)
        requires
            self.chunk_fits(),
        ensures
            r == self.spec_bytes_per_chunk(),
    {
        let trials = self.n * self.n;
        let chunks = self.instances * trials;
        div_ceil_saturating(self.db_item_size, chunks)
    }

    /// Plaintext words of `floor(log2(pt_modulus))` bits that hold one chunk,
    /// rounded up.
    pub fn modp_words_per_chunk(&self) -> (r: usize)
        requires
            self.chunk_fits(),
            self.pt_modulus > 0,
            self.spec_bytes_per_chunk() * 8 <= usize::MAX,
        ensures
            r == self.spec_modp_words_per_chunk(),
    {
        let bytes_per_chunk = self.bytes_per_chunk();
        let lg = log2(self.pt_modulus);
        proof {
            lemma_floor_log2_bounds(self.pt_modulus as nat);
            assert(lg < 64) by {
                lemma2_to64_rest();
                if lg >= 64 {
                    if lg > 64 {
                        lemma_pow2_strictly_increases(64, lg as nat);
                    }
                }
            }
        }
        div_ceil_saturating(bytes_per_chunk * 8, lg as usize)
    }

    /// CRT composition with a single modulus: the value itself.
    pub fn crt_compose_1(&self, x: u64) -> (r: u64)
        requires
            self.crt_count == 1,
        ensures
            r == x,
    {
        x
    }

    /// CRT composition of residues `x` and `y` of the two moduli:
    /// `(x * mod1_inv_mod0 + y * mod0_inv_mod1) mod modulus`.
    pub fn crt_compose_2(&self, x: u64, y: u64) -> (r: u64)
        requires
            self.crt_count == 2,
            self.modulus > 0,
            self.spec_crt_sum(x, y) <= u128::MAX,
        ensures
            r == self.spec_crt_compose_2(x, y),
    {
        proof {
            assert(x as int * self.mod1_inv_mod0 as int <= u128::MAX) by (nonlinear_arith)
                requires
                    x <= u64::MAX,
                    self.mod1_inv_mod0 <= u64::MAX,
            ;
        }
        let mut val = (x as u128) * (self.mod1_inv_mod0 as u128);
        val += (y as u128) * (self.mod0_inv_mod1 as u128);

        barrett_reduction_u128(self, val)
    }

    /// CRT composition of coefficient `idx` of `a`, whose residues modulo
    /// the second modulus start at `poly_len`.
    pub fn crt_compose(&self, a: &[u64], idx: usize) -> (r: u64)
        requires
            idx < a.len(),
            self.crt_count == 1 || self.crt_count == 2,
            self.crt_count == 2 ==> {
                &&& idx + self.poly_len < a.len()
                &&& self.modulus > 0
                &&& self.spec_crt_sum(a[idx as int], a[idx + self.poly_len]) <= u128::MAX
            },
        ensures
            r == if self.crt_count == 1 {
                a[idx as int] as int
            } else {
                self.spec_crt_compose_2(a[idx as int], a[idx + self.poly_len])
            },
    {
        if self.crt_count == 1 {
            self.crt_compose_1(a[idx])
        } else {
            self.crt_compose_2(a[idx], a[idx + self.poly_len])
        }
    }
}

/// Every accepted `q2_bits` (from `MIN_Q2_BITS` to the end of the table)
/// names a modulus in `Q2_VALUES`.
pub proof fn lemma_q2_values_defined(bits: int)
    requires
        MIN_Q2_BITS <= bits < Q2_VALUES@.len(),
    ensures
        Q2_VALUES@[bits] > 0,
{
    assert(Q2_VALUES@.len() == 37);
}

/// CRT composition reconstructs: for a parameter set with two moduli as
/// `init` builds it, `crt_compose_2(x, y)` is below the modulus, congruent
/// to `x` modulo the first modulus and to `y` modulo the second.
pub proof fn lemma_crt_compose_2(p: Params, x: u64, y: u64)
    requires
        p.crt_pair_wf(),
    ensures
        0 <= p.spec_crt_compose_2(x, y) < p.modulus,
        p.spec_crt_compose_2(x, y) % (p.moduli[0] as int) == x as int % (p.moduli[0] as int),
        p.spec_crt_compose_2(x, y) % (p.moduli[1] as int) == y as int % (p.moduli[1] as int),
{
    let m0 = p.moduli[0] as int;
    let m1 = p.moduli[1] as int;
    let i0 = mod_inverse(m0, m1);
    let i1 = mod_inverse(m1, m0);
    let a = p.mod1_inv_mod0 as int;
    let b = p.mod0_inv_mod1 as int;
    let v = p.spec_crt_sum(x, y);
    assert(v >= 0) by (nonlinear_arith)
        requires
            v == x as int * a + y as int * b,
            x >= 0,
            y >= 0,
            a >= 0,
            b >= 0,
    ;
    assert(m0 * m1 > 0) by (nonlinear_arith)
        requires
            m0 > 1,
            m1 > 1,
    ;
    lemma_mod_bound(v, m0 * m1);
    // reduce modulo the product first
    lemma_mod_mod(v, m0, m1);
    lemma_mul_is_commutative(m0, m1);
    lemma_mod_mod(v, m1, m0);
    // a == 1 and b == 0 modulo m0
    lemma_small_mod(1, m0 as nat);
    lemma_small_mod(1, m1 as nat);
    lemma_mul_is_commutative(m0, i0);
    lemma_mod_multiples_basic(i0, m0);
    lemma_mul_is_commutative(m1, i1);
    lemma_mod_multiples_basic(i1, m1);
    // v mod m0
    lemma_add_mod_noop(x as int * a, y as int * b, m0);
    lemma_mul_mod_noop_right(x as int, a, m0);
    lemma_mul_mod_noop_right(y as int, b, m0);
    assert((y as int * 0int) == 0);
    lemma_small_mod(0, m0 as nat);
    lemma_mod_twice(x as int, m0);
    // v mod m1
    lemma_add_mod_noop(x as int * a, y as int * b, m1);
    lemma_mul_mod_noop_right(x as int, a, m1);
    lemma_mul_mod_noop_right(y as int, b, m1);
    assert((x as int * 0int) == 0);
    lemma_small_mod(0, m1 as nat);
    lemma_mod_twice(y as int, m1);
}

/// The database holds `2^(db_dim_1 + db_dim_2)` items:
/// `num_items` is `num_expanded` times `2^db_dim_2`.
pub proof fn lemma_num_items(p: Params)
    ensures
        pow2(p.db_dim_1 as nat) * pow2(p.db_dim_2 as nat) == p.spec_num_expanded() * pow2(
            p.db_dim_2 as nat,
        ),
        pow2(p.db_dim_1 as nat) * pow2(p.db_dim_2 as nat) == pow2(
            (p.db_dim_1 + p.db_dim_2) as nat,
        ),
{
    lemma_pow2_adds(p.db_dim_1 as nat, p.db_dim_2 as nat);
}

/// The item size grows linearly with the number of instances, where the
/// bits per instance fill whole bytes.
pub proof fn lemma_item_size_instances(p: Params, q: Params, k: nat)
    requires
        q.n == p.n,
        q.poly_len == p.poly_len,
        q.pt_modulus == p.pt_modulus,
        q.instances == k * p.instances,
        (p.n as nat * p.n as nat * p.poly_len as nat * p.spec_logp()) % 8 == 0,
    ensures
        q.spec_item_size() == k * p.spec_item_size(),
{
    let per = p.n as nat * p.n as nat * p.poly_len as nat * p.spec_logp();
    assert(p.spec_item_bits() == p.instances as nat * per) by (nonlinear_arith)
        requires
            p.spec_item_bits() == p.instances as nat * p.n as nat * p.n as nat * p.poly_len as nat
                * p.spec_logp(),
            per == p.n as nat * p.n as nat * p.poly_len as nat * p.spec_logp(),
    ;
    assert(q.spec_item_bits() == (k * p.instances as nat) * per) by (nonlinear_arith)
        requires
            q.spec_item_bits() == q.instances as nat * q.n as nat * q.n as nat * q.poly_len as nat
                * q.spec_logp(),
            per == q.n as nat * q.n as nat * q.poly_len as nat * q.spec_logp(),
            q.instances == k * p.instances,
    ;
    lemma_fundamental_div_mod(per as int, 8);
    let w = per / 8;
    assert(p.spec_item_bits() == (p.instances as nat * w) * 8) by (nonlinear_arith)
        requires
            p.spec_item_bits() == p.instances as nat * per,
            per == 8 * w,
    ;
    assert(q.spec_item_bits() == (k * p.instances as nat * w) * 8) by (nonlinear_arith)
        requires
            q.spec_item_bits() == (k * p.instances as nat) * per,
            per == 8 * w,
    ;
    lemma_div_by_multiple((p.instances as nat * w) as int, 8);
    lemma_div_by_multiple((k * p.instances as nat * w) as int, 8);
    assert(k * p.instances as nat * w == k * (p.instances as nat * w)) by (nonlinear_arith);
}

/// Version 0 uploads one packing matrix per row (`n`) where later versions
/// upload two, and never less right expansion: with more than two rows, a
/// nonzero `t_conv` and nonempty polynomials, version 0's public
/// parameters are larger.
pub proof fn lemma_setup_bytes_version(p: Params, q: Params)
    requires
        q.n == p.n,
        q.t_conv == p.t_conv,
        q.t_exp_left == p.t_exp_left,
        q.t_exp_right == p.t_exp_right,
        q.t_gsw == p.t_gsw,
        q.db_dim_1 == p.db_dim_1,
        q.db_dim_2 == p.db_dim_2,
        q.expand_queries == p.expand_queries,
        q.poly_len == p.poly_len,
        p.version == 0,
        q.version > 0,
        p.n > 2,
        p.t_conv > 0,
        p.poly_len > 0,
    ensures
        p.spec_setup_bytes() > q.spec_setup_bytes(),
{
    let n = p.n as nat;
    let t = p.t_conv as nat;
    assert(n * (n * t) > 2 * (n * t)) by (nonlinear_arith)
        requires
            n > 2,
            t > 0,
    ;
    assert(p.spec_setup_polys() > q.spec_setup_polys());
    assert(p.spec_setup_polys() * p.poly_len as nat * 8 > q.spec_setup_polys() * p.poly_len as nat
        * 8) by (nonlinear_arith)
        requires
            p.spec_setup_polys() > q.spec_setup_polys(),
            p.poly_len > 0,
    ;
}

/// The number of expansion rounds is the least `k` with
/// `t_gsw * db_dim_2 + 2^db_dim_1 <= 2^k`.
pub proof fn lemma_g_is_least_covering_exponent(p: Params)
    ensures
        pow2(p.spec_g()) >= p.t_gsw as nat * p.db_dim_2 as nat + pow2(p.db_dim_1 as nat),
        p.spec_g() == 0 || pow2((p.spec_g() - 1) as nat) < p.t_gsw as nat * p.db_dim_2 as nat
            + pow2(p.db_dim_1 as nat),
{
    lemma_pow2_pos(p.db_dim_1 as nat);
    lemma_ceil_log2_bounds(p.spec_bits_to_gen());
}

/// Right expansion stops at the least `k` with `t_gsw * db_dim_2 <= 2^k`
/// (round 0 when `t_gsw * db_dim_2 <= 1`).
pub proof fn lemma_stop_round_is_least_covering_exponent(p: Params)
    ensures
        pow2(p.spec_stop_round()) >= p.t_gsw as nat * p.db_dim_2 as nat,
        p.spec_stop_round() == 0 || pow2((p.spec_stop_round() - 1) as nat) < p.t_gsw as nat
            * p.db_dim_2 as nat,
        p.t_gsw as nat * p.db_dim_2 as nat <= 1 ==> p.spec_stop_round() == 0,
{
    let x = p.t_gsw as nat * p.db_dim_2 as nat;
    if x >= 1 {
        lemma_ceil_log2_bounds(x);
    } else {
        lemma_pow2_pos(0);
    }
    if x <= 1 && p.spec_stop_round() > 0 {
        lemma_pow2_pos((p.spec_stop_round() - 1) as nat);
    }
}

/// An expanded query holds `2^(db_dim_1 - MAX_EXP_DIM)` ciphertexts once the
/// first dimension exceeds `MAX_EXP_DIM`, and one ciphertext otherwise.
pub proof fn lemma_query_bytes_expanded(p: Params)
    requires
        p.expand_queries,
    ensures
        p.db_dim_1 > MAX_EXP_DIM ==> p.spec_query_bytes() == SEED_LENGTH + pow2(
            (p.db_dim_1 - 8) as nat,
        ) * p.poly_len * 8,
        p.db_dim_1 <= MAX_EXP_DIM ==> p.spec_query_bytes() == SEED_LENGTH + p.poly_len * 8,
{
    assert(1nat * (p.poly_len as nat) * 8 == p.poly_len as nat * 8);
}

/// Above `MAX_EXP_DIM`, one more first-dimension bit doubles the query
/// (apart from the seed).
pub proof fn lemma_query_bytes_doubles(p: Params, q: Params)
    requires
        p.expand_queries,
        q.expand_queries,
        p.poly_len == q.poly_len,
        p.db_dim_1 >= MAX_EXP_DIM,
        q.db_dim_1 == p.db_dim_1 + 1,
    ensures
        q.spec_query_bytes() - SEED_LENGTH == 2 * (p.spec_query_bytes() - SEED_LENGTH),
{
    let k = (p.db_dim_1 - MAX_EXP_DIM) as nat;
    lemma_pow2_unfold(k + 1);
    if p.db_dim_1 == MAX_EXP_DIM {
        lemma2_to64();
    }
    let c = p.poly_len as nat * 8;
    assert(pow2(k + 1) * c == 2 * (pow2(k) * c)) by (nonlinear_arith)
        requires
            pow2(k + 1) == 2 * pow2(k),
    ;
    assert(p.spec_query_polys() * p.poly_len * 8 == p.spec_query_polys() * c) by (nonlinear_arith)
        requires
            c == p.poly_len as nat * 8,
    ;
    assert(p.spec_query_polys() == pow2(k));
    assert(q.spec_query_polys() == pow2(k + 1));
    assert(q.spec_query_polys() * q.poly_len * 8 == q.spec_query_polys() * c) by (nonlinear_arith)
        requires
            q.poly_len == p.poly_len,
            c == p.poly_len as nat * 8,
    ;
}

/// Right-expansion keys are dropped only when both expansion sides use the
/// same decomposition: with `t_exp_left != t_exp_right`, two parameter sets
/// that differ only in version and have the same packing count upload the
/// same public parameters.
pub proof fn lemma_setup_bytes_version_keeps_right_expansion(p: Params, q: Params)
    requires
        q.n == p.n,
        q.t_conv == p.t_conv,
        q.t_exp_left == p.t_exp_left,
        q.t_exp_right == p.t_exp_right,
        q.t_gsw == p.t_gsw,
        q.db_dim_1 == p.db_dim_1,
        q.db_dim_2 == p.db_dim_2,
        q.expand_queries == p.expand_queries,
        q.poly_len == p.poly_len,
        p.n == 2,
        p.t_exp_left != p.t_exp_right,
    ensures
        p.spec_setup_bytes() == q.spec_setup_bytes(),
{
}

/// With query expansion and `t_exp_left != t_exp_right`, the public
/// parameters hold the `(stop_round + 1) * t_exp_right` right-expansion
/// polynomials whatever the version.
pub proof fn lemma_setup_polys_hold_right_expansion(p: Params)
    requires
        p.expand_queries,
        p.t_exp_left != p.t_exp_right,
    ensures
        p.spec_setup_polys() >= (p.spec_stop_round() + 1) * p.t_exp_right as nat,
        p.spec_setup_polys() == p.spec_num_packing_mats() * (p.n as nat * p.t_conv as nat)
            + p.spec_expansion_left_sz() + (p.spec_stop_round() + 1) * p.t_exp_right as nat + 2
            * p.t_conv as nat,
{
}

/// When both expansion sides use the same decomposition, a later version
/// drops exactly the `(stop_round + 1) * t_exp_right` right-expansion
/// polynomials (with the same packing count, `n == 2`).
pub proof fn lemma_setup_bytes_version_drops_right_expansion(p: Params, q: Params)
    requires
        q.n == p.n,
        q.t_conv == p.t_conv,
        q.t_exp_left == p.t_exp_left,
        q.t_exp_right == p.t_exp_right,
        q.t_gsw == p.t_gsw,
        q.db_dim_1 == p.db_dim_1,
        q.db_dim_2 == p.db_dim_2,
        q.poly_len == p.poly_len,
        p.expand_queries,
        q.expand_queries,
        p.version == 0,
        q.version > 0,
        p.n == 2,
        p.t_exp_left == p.t_exp_right,
    ensures
        p.spec_setup_polys() == q.spec_setup_polys() + (p.spec_stop_round() + 1)
            * p.t_exp_right as nat,
        p.spec_setup_bytes() == q.spec_setup_bytes() + (p.spec_stop_round() + 1)
            * p.t_exp_right as nat * p.poly_len as nat * 8,
{
    let d = (p.spec_stop_round() + 1) * p.t_exp_right as nat;
    assert(p.spec_setup_polys() == q.spec_setup_polys() + d);
    assert(p.spec_setup_polys() * p.poly_len as nat * 8 == q.spec_setup_polys() * p.poly_len as nat
        * 8 + d * p.poly_len as nat * 8) by (nonlinear_arith)
        requires
            p.spec_setup_polys() == q.spec_setup_polys() + d,
    ;
}

/// Without expansion a query holds `2 * t_gsw` polynomials per
/// first-dimension bit.
pub proof fn lemma_query_bytes_unexpanded(p: Params)
    requires
        !p.expand_queries,
    ensures
        p.spec_query_bytes() == SEED_LENGTH + p.db_dim_1 as nat * 2 * p.t_gsw as nat
            * p.poly_len as nat * 8,
{
}

/// `ceil_div_saturating(a, b)` is the least `k` with `a <= k * b`, for a
/// nonzero divisor.
pub proof fn lemma_ceil_div_is_least_cover(a: nat, b: nat)
    requires
        b > 0,
    ensures
        a <= ceil_div_saturating(a, b) * b,
        ceil_div_saturating(a, b) == 0 || (ceil_div_saturating(a, b) - 1) * b < a,
{
    let k = ceil_div_saturating(a, b);
    lemma_fundamental_div_mod((a + b - 1) as int, b as int);
    lemma_mod_bound((a + b - 1) as int, b as int);
    assert(a + b - 1 == b * k + (a + b - 1) % (b as int));
    assert(k * b == b * k) by (nonlinear_arith);
    if k > 0 {
        assert((k - 1) * b == k * b - b) by (nonlinear_arith);
    }
}

/// Each chunk gets the least number of bytes that covers the item when the
/// item is split over `instances * n * n` chunks.
pub proof fn lemma_bytes_per_chunk_covers(p: Params)
    requires
        p.instances as nat * (p.n as nat * p.n as nat) > 0,
    ensures
        p.db_item_size <= p.spec_bytes_per_chunk() * (p.instances as nat * (p.n as nat
            * p.n as nat)),
        p.spec_bytes_per_chunk() == 0 || (p.spec_bytes_per_chunk() - 1) * (p.instances as nat * (
        p.n as nat * p.n as nat)) < p.db_item_size,
{
    lemma_ceil_div_is_least_cover(p.db_item_size as nat, p.instances as nat * (p.n as nat * p.n as nat));
}

/// A chunk takes the least number of plaintext words of
/// `floor(log2(pt_modulus))` bits that hold all of its bits.
pub proof fn lemma_modp_words_cover_chunk(p: Params)
    requires
        p.pt_modulus >= 2,
    ensures
        p.spec_bytes_per_chunk() * 8 <= p.spec_modp_words_per_chunk() * floor_log2(
            p.pt_modulus as nat,
        ),
        p.spec_modp_words_per_chunk() == 0 || (p.spec_modp_words_per_chunk() - 1) * floor_log2(
            p.pt_modulus as nat,
        ) < p.spec_bytes_per_chunk() * 8,
        pow2(floor_log2(p.pt_modulus as nat)) <= p.pt_modulus < pow2(
            floor_log2(p.pt_modulus as nat) + 1,
        ),
{
    lemma_floor_log2_bounds(p.pt_modulus as nat);
    assert(floor_log2(p.pt_modulus as nat) >= 1);
    lemma_ceil_div_is_least_cover(p.spec_bytes_per_chunk() * 8, floor_log2(p.pt_modulus as nat));
}

/// The item size is the whole bytes of
/// `instances * n * n * poly_len * floor(log2(pt_modulus))` bits.
pub proof fn lemma_item_size_whole_bytes(p: Params)
    ensures
        8 * p.spec_item_size() <= p.instances as nat * p.n as nat * p.n as nat * p.poly_len as nat
            * floor_log2(p.pt_modulus as nat),
        p.instances as nat * p.n as nat * p.n as nat * p.poly_len as nat * floor_log2(
            p.pt_modulus as nat,
        ) < 8 * p.spec_item_size() + 8,
{
    lemma_fundamental_div_mod(p.spec_item_bits() as int, 8);
}

/// Without expansion the public parameters are only the packing keys:
/// `n` matrices (version 0) or 2 (later versions) of `n * t_conv`
/// polynomials each.
pub proof fn lemma_setup_bytes_unexpanded(p: Params)
    requires
        !p.expand_queries,
    ensures
        p.version == 0 ==> p.spec_setup_bytes() == SEED_LENGTH + p.n as nat * p.n as nat
            * p.t_conv as nat * p.poly_len as nat * 8,
        p.version > 0 ==> p.spec_setup_bytes() == SEED_LENGTH + 2 * p.n as nat * p.t_conv as nat
            * p.poly_len as nat * 8,
{
    assert(p.n as nat * (p.n as nat * p.t_conv as nat) == p.n as nat * p.n as nat
        * p.t_conv as nat) by (nonlinear_arith);
    assert(2 * (p.n as nat * p.t_conv as nat) == 2 * p.n as nat * p.t_conv as nat)
        by (nonlinear_arith);
}

} // verus!

