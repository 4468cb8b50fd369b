//! The parameters of a round.
use crate::bd;
use crate::ring;
use crate::ring::Modulus;
use vstd::arithmetic::power2::*;
use vstd::bits::*;
use vstd::prelude::*;
use vstd::string::*;

verus! {

/// log2 of the shortest column: 128 `F162`, the 32 ring elements of one batch.
pub const MIN_COLUMN_LOG_LEN: u32 = 7;

/// Why a [`Params`] was refused.
#[derive(Clone, Copy, PartialEq, Eq, Debug, Structural)]
pub enum ParamError {
    /// More columns than the witness has elements.
    ColumnsExceedWitness,
    /// Fewer than two columns; the fold accumulates the chunks in pairs.
    TooFewColumns,
    /// A column shorter than the 128 `F162` of one batch.
    ColumnTooShort,
    /// The same extra modulus twice.
    DuplicateModulus(Modulus),
    /// The base modulus listed again among the extra ones.
    BaseIsAlsoExtra(Modulus),
}

/// How a commitment is opened.
#[derive(Clone, Copy, PartialEq, Eq, Debug, Structural)]
pub enum Opening {
    Clear,
    BitDropped { bits: u32 },
    /// The folded opening goes into a LaBRADOR proof.
    Recursive,
}

/// The shape of one round: a witness of `2^witness_log_len` `F162` read as `2^column_log_len`
/// columns, committed modulo `base` and every entry of `extra_moduli`.
#[derive(Clone, PartialEq, Eq, Debug)]
pub struct Params {
    pub witness_log_len: u32,
    pub column_log_len: u32,
    pub base: Modulus,
    pub extra_moduli: Vec<Modulus>,
    pub opening: Opening,
}

/// A named size.
#[derive(Clone, PartialEq, Eq, Debug)]
pub struct Suite {
    pub name: &'static str,
    pub witness_log_len: u32,
    pub column_log_len_clear: u32,
    pub column_log_len_recursive: u32,
    /// The base modulus first, then the extra ones.
    pub moduli: Vec<Modulus>,
    pub moduli_bd: Vec<Modulus>,
    pub dropped_bits: u32,
}

/// Every entry differs from `base` and from the entries before it.
pub open spec fn distinct(base: Modulus, extra: Seq<Modulus>, n: int) -> bool {
    forall|i: int| 0 <= i < n ==> #[trigger] fresh(base, extra, i)
}

/// Entry `i` differs from `base` and from the entries before it.
pub open spec fn fresh(base: Modulus, extra: Seq<Modulus>, i: int) -> bool {
    &&& extra[i] != base
    &&& forall|k: int| 0 <= k < i ==> #[trigger] extra[k] != extra[i]
}

/// Why the shape is refused, in the order the tests are made.
pub open spec fn refusal(
    witness_log_len: u32,
    column_log_len: u32,
    base: Modulus,
    extra: Seq<Modulus>,
) -> Option<ParamError> {
    if column_log_len > witness_log_len {
        Some(ParamError::ColumnsExceedWitness)
    } else if column_log_len < 1 {
        Some(ParamError::TooFewColumns)
    } else if witness_log_len - column_log_len < MIN_COLUMN_LOG_LEN {
        Some(ParamError::ColumnTooShort)
    } else if distinct(base, extra, extra.len() as int) {
        None
    } else {
        let i = first_stale(base, extra, 0);
        if extra[i] == base {
            Some(ParamError::BaseIsAlsoExtra(extra[i]))
        } else {
            Some(ParamError::DuplicateModulus(extra[i]))
        }
    }
}

/// The first entry from `i` on that is not fresh.
pub open spec fn first_stale(base: Modulus, extra: Seq<Modulus>, i: nat) -> int
    decreases extra.len() - i,
{
    if i >= extra.len() || !fresh(base, extra, i as int) {
        i as int
    } else {
        first_stale(base, extra, i + 1)
    }
}

/// `2^k` by a shift.
pub(crate) fn shift(k: u32) -> (r: usize)
    requires
        k < usize::BITS,
    ensures
        r == pow2(k as nat),
        r > 0,
{
    proof {
        lemma_pow2_pos(k as nat);
        lemma2_to64();
        lemma_shift(k);
    }
    1usize << k
}

proof fn lemma_shift(k: u32)
    requires
        k < usize::BITS,
    ensures
        1usize << k == pow2(k as nat),
{
    let s = k as usize;
    if usize::BITS == 64 {
        lemma2_to64_rest();
        lemma_pow2_strictly_increases(k as nat, 64);
    } else {
        lemma2_to64();
        lemma_pow2_strictly_increases(k as nat, 32);
    }
    lemma_usize_shl_is_mul(1, s);
    assert(1usize << k == 1usize << s);
}

impl Params {
    /// What the checked constructors establish, and that the witness length is a `usize`.
    pub open spec fn wf(&self) -> bool {
        &&& refusal(
            self.witness_log_len,
            self.column_log_len,
            self.base,
            self.extra_moduli@,
        ) is None
        &&& self.witness_log_len < usize::BITS
    }

    /// The moduli are distinct.
    pub proof fn lemma_distinct(&self)
        requires
            self.wf(),
        ensures
            forall|i: int|
                0 <= i < self.extra_moduli@.len() ==> (#[trigger] self.extra_moduli@[i])
                    != self.base,
            forall|i: int, j: int|
                0 <= i < j < self.extra_moduli@.len() ==> (#[trigger] self.extra_moduli@[i])
                    != #[trigger] self.extra_moduli@[j],
            self.witness_log_len - self.column_log_len >= 7,
            1 <= self.column_log_len <= self.witness_log_len,
    {
        let e = self.extra_moduli@;
        assert forall|i: int| 0 <= i < e.len() implies fresh(self.base, e, i) by {}
        assert forall|i: int| 0 <= i < e.len() implies (#[trigger] e[i]) != self.base by {
            assert(fresh(self.base, e, i));
        }
        assert forall|i: int, j: int| 0 <= i < j < e.len() implies (#[trigger] e[i])
            != #[trigger] e[j] by {
            assert(fresh(self.base, e, j));
        }
    }

    /// Distinct moduli are few.
    pub proof fn lemma_few(&self)
        requires
            self.wf(),
        ensures
            self.extra_moduli@.len() <= 7,
    {
        let e = self.extra_moduli@;
        let all = set![
            Modulus::Q2917_Q_S,
            Modulus::Q3889_FS_S,
            Modulus::Q4861_Q_S,
            Modulus::Q9721_FS_S,
            Modulus::Q12637_Q_S,
            Modulus::Q17497_FS_L,
            Modulus::Q19441_FS_L,
        ];
        assert forall|i: int, j: int| 0 <= i < e.len() && 0 <= j < e.len() && i != j implies e[i]
            != e[j] by {
            assert(fresh(self.base, e, i) && fresh(self.base, e, j));
        }
        e.unique_seq_to_set();
        assert(e.to_set().subset_of(all));
        vstd::set_lib::lemma_len_subset(e.to_set(), all);
        assert(all.len() <= 7);
    }

    /// The checked constructor over the default base modulus 3889.
    pub fn new(
        witness_log_len: u32,
        column_log_len: u32,
        extra_moduli: Vec<Modulus>,
        opening: Opening,
    ) -> (r: Result<Params, ParamError>)
        ensures
            match r {
                Ok(p) => {
                    &&& refusal(witness_log_len, column_log_len, Modulus::BASE, extra_moduli@)
                        is None
                    &&& p == (Params {
                        witness_log_len,
                        column_log_len,
                        base: Modulus::BASE,
                        extra_moduli,
                        opening,
                    })
                },
                Err(e) => refusal(witness_log_len, column_log_len, Modulus::BASE, extra_moduli@)
                    == Some(e),
            },
    {
        Params::with_base(witness_log_len, column_log_len, Modulus::BASE, extra_moduli, opening)
    }

    /// The checked constructor over a chosen base modulus.
    pub fn with_base(
        witness_log_len: u32,
        column_log_len: u32,
        base: Modulus,
        extra_moduli: Vec<Modulus>,
        opening: Opening,
    ) -> (r: Result<Params, ParamError>)
        ensures
            match r {
                Ok(p) => {
                    &&& refusal(witness_log_len, column_log_len, base, extra_moduli@) is None
                    &&& p == (Params {
                        witness_log_len,
                        column_log_len,
                        base,
                        extra_moduli,
                        opening,
                    })
                },
                Err(e) => refusal(witness_log_len, column_log_len, base, extra_moduli@) == Some(e),
            },
    {
        if column_log_len > witness_log_len {
            return Err(ParamError::ColumnsExceedWitness);
        }
        if column_log_len < 1 {
            return Err(ParamError::TooFewColumns);
        }
        if witness_log_len - column_log_len < MIN_COLUMN_LOG_LEN {
            return Err(ParamError::ColumnTooShort);
        }
        let ghost extra = extra_moduli@;
        let mut i: usize = 0;
        while i < extra_moduli.len()
            invariant
                i <= extra_moduli@.len(),
                extra == extra_moduli@,
                distinct(base, extra, i as int),
                first_stale(base, extra, 0) == first_stale(base, extra, i as nat),
                column_log_len <= witness_log_len,
                column_log_len >= 1,
                witness_log_len - column_log_len >= MIN_COLUMN_LOG_LEN,
            decreases extra_moduli@.len() - i,
        {
            let m = extra_moduli[i];
            if m == base {
                assert(!fresh(base, extra, i as int));
                return Err(ParamError::BaseIsAlsoExtra(m));
            }
            let mut k: usize = 0;
            while k < i
                invariant
                    k <= i < extra_moduli@.len(),
                    extra == extra_moduli@,
                    m == extra[i as int],
                    m != base,
                    first_stale(base, extra, 0) == first_stale(base, extra, i as nat),
                    column_log_len <= witness_log_len,
                    column_log_len >= 1,
                    witness_log_len - column_log_len >= MIN_COLUMN_LOG_LEN,
                    forall|j: int| 0 <= j < k ==> #[trigger] extra[j] != m,
                decreases i - k,
            {
                if extra_moduli[k] == m {
                    assert(extra[k as int] == extra[i as int]);
                    assert(!fresh(base, extra, i as int));
                    return Err(ParamError::DuplicateModulus(m));
                }
                k += 1;
            }
            assert(fresh(base, extra, i as int));
            i += 1;
        }
        Ok(Params { witness_log_len, column_log_len, base, extra_moduli, opening })
    }

    /// The default configuration: 2^18 `F162` in 128 columns, moduli 3889 and 9721, the folded
    /// opening in the clear.
    pub fn basic() -> (p: Params)
        ensures
            p.wf(),
            p.witness_log_len == 18,
            p.column_log_len == 7,
            p.base == Modulus::Q3889_FS_S,
            p.extra_moduli@ == seq![Modulus::Q9721_FS_S],
            p.opening == Opening::Clear,
    {
        let extra: Vec<Modulus> = vec![Modulus::Q9721_FS_S];
        let r = Params {
            witness_log_len: 18,
            column_log_len: 7,
            base: Modulus::BASE,
            extra_moduli: extra,
            opening: Opening::Clear,
        };
        proof {
            assert(extra@ =~= seq![Modulus::Q9721_FS_S]);
            assert(fresh(Modulus::BASE, extra@, 0));
            assert(distinct(Modulus::BASE, extra@, 1));
        }
        r
    }

    /// The parameters of a named size in the given mode.
    pub fn sized(suite: &Suite, opening: Opening) -> (p: Params)
        requires
            suite.wf(),
        ensures
            p.wf(),
            p.witness_log_len == suite.witness_log_len,
            p.column_log_len == (match opening {
                Opening::Recursive => suite.column_log_len_recursive,
                _ => suite.column_log_len_clear,
            }),
            ({
                let list = match opening {
                    Opening::BitDropped { .. } => suite.moduli_bd@,
                    _ => suite.moduli@,
                };
                p.base == list[0] && p.extra_moduli@ == list.skip(1)
            }),
            p.opening == opening,
    {
        let column_log_len: u32 = match opening {
            Opening::Recursive => suite.column_log_len_recursive,
            _ => suite.column_log_len_clear,
        };
        let list: &Vec<Modulus> = match opening {
            Opening::BitDropped { .. } => &suite.moduli_bd,
            _ => &suite.moduli,
        };
        let mut extra: Vec<Modulus> = Vec::new();
        let mut i: usize = 1;
        while i < list.len()
            invariant
                1 <= i <= list@.len(),
                extra@ == list@.subrange(1, i as int),
            decreases list@.len() - i,
        {
            extra.push(list[i]);
            i += 1;
            assert(extra@ =~= list@.subrange(1, i as int));
        }
        assert(extra@ =~= list@.skip(1));
        Params {
            witness_log_len: suite.witness_log_len,
            column_log_len,
            base: list[0],
            extra_moduli: extra,
            opening,
        }
    }

    /// The same shape with the given number of dropped bits.
    pub fn dropping(self, dropped_bits: u32) -> (p: Params)
        ensures
            p.witness_log_len == self.witness_log_len,
            p.column_log_len == self.column_log_len,
            p.base == self.base,
            p.extra_moduli == self.extra_moduli,
            p.opening == (if dropped_bits == 0 {
                Opening::Clear
            } else {
                Opening::BitDropped { bits: dropped_bits }
            }),
    {
        let opening = if dropped_bits == 0 {
            Opening::Clear
        } else {
            Opening::BitDropped { bits: dropped_bits }
        };
        Params {
            witness_log_len: self.witness_log_len,
            column_log_len: self.column_log_len,
            base: self.base,
            extra_moduli: self.extra_moduli,
            opening,
        }
    }

    pub fn recursion(&self) -> (r: bool)
        ensures
            r == (self.opening == Opening::Recursive),
    {
        self.opening == Opening::Recursive
    }

    /// The number of bits the mode drops.
    pub open spec fn bits(&self) -> u32 {
        match self.opening {
            Opening::BitDropped { bits } => bits,
            _ => 0,
        }
    }

    pub fn dropped_bits(&self) -> (r: u32)
        ensures
            r == self.bits(),
    {
        match self.opening {
            Opening::BitDropped { bits } => bits,
            _ => 0,
        }
    }

    /// The cap on the squared norm of the error of a bit-dropped fold.
    pub fn bd_cap(&self) -> (c: u64)
        requires
            self.column_log_len < usize::BITS,
            self.bits() <= 26,
            bd::cap_of(pow2(self.column_log_len as nat), self.bits() as nat) < 0x20_0000_0000_0000,
        ensures
            c == bd::cap_of(pow2(self.column_log_len as nat), self.bits() as nat),
    {
        bd::cap(self.columns(), self.dropped_bits())
    }

    /// The cap on `|v|^2` at this shape: the cap per coefficient times `witness_len / 4 * 648`,
    /// rounded up. The fold has `witness_len / (4 columns)` ring elements and each coefficient is a
    /// sum of `28 columns` signed terms, so the product is the same however the columns are split.
    pub open spec fn fold_cap_of(&self, cap: FoldCap) -> int {
        (cap.num * (pow2(self.witness_log_len as nat) / 4 * 648) + cap.den - 1) / (cap.den as int)
    }

    pub fn fold_cap(&self, cap: &FoldCap) -> (c: u64)
        requires
            self.witness_log_len < usize::BITS,
            cap.den > 0,
            cap.num * (pow2(self.witness_log_len as nat) / 4 * 648) + cap.den <= u64::MAX,
        ensures
            c == self.fold_cap_of(*cap),
    {
        let n: usize = self.witness_len();
        proof {
            let (x, m) = (cap.num as int, (n / 4 * 648) as int);
            assert(0 <= x * m) by (nonlinear_arith)
                requires
                    0 <= x,
                    0 <= m,
            ;
            let t = cap.num * m + cap.den - 1;
            vstd::arithmetic::div_mod::lemma_div_is_ordered_by_denominator(t, 1, cap.den as int);
            vstd::arithmetic::div_mod::lemma_div_basics(t);
        }
        let m: u128 = (n / 4) as u128 * 648;
        ((cap.num as u128 * m + cap.den as u128 - 1) / (cap.den as u128)) as u64
    }

    /// Witness length in `F162` elements.
    pub fn witness_len(&self) -> (n: usize)
        requires
            self.witness_log_len < usize::BITS,
        ensures
            n == pow2(self.witness_log_len as nat),
    {
        shift(self.witness_log_len)
    }

    /// Number of columns the witness is split into, also the number of folding challenges.
    pub fn columns(&self) -> (n: usize)
        requires
            self.column_log_len < usize::BITS,
        ensures
            n == pow2(self.column_log_len as nat),
    {
        shift(self.column_log_len)
    }

    /// log2 of one column in `F162`: the number of row variables of the evaluation point.
    pub fn row_log_len(&self) -> (n: u32)
        requires
            self.column_log_len <= self.witness_log_len,
        ensures
            n == self.witness_log_len - self.column_log_len,
    {
        self.witness_log_len - self.column_log_len
    }

    /// One column in `F162` elements.
    pub fn column_len(&self) -> (n: usize)
        requires
            self.wf(),
        ensures
            n == pow2((self.witness_log_len - self.column_log_len) as nat),
    {
        shift(self.row_log_len())
    }

    /// The primes in index order: the base modulus first, then the extra ones.
    pub open spec fn prime_list(&self) -> Seq<u16> {
        Seq::new(
            1 + self.extra_moduli@.len(),
            |i: int|
                if i == 0 {
                    ring::prime_of(self.base)
                } else {
                    ring::prime_of(self.extra_moduli@[i - 1])
                },
        )
    }

    pub fn primes(&self) -> (r: Vec<u16>)
        ensures
            r@ == self.prime_list(),
    {
        let mut r: Vec<u16> = vec![self.base.prime()];
        let mut i: usize = 0;
        while i < self.extra_moduli.len()
            invariant
                i <= self.extra_moduli@.len(),
                r@ == self.prime_list().take(1 + i),
            decreases self.extra_moduli@.len() - i,
        {
            r.push(self.extra_moduli[i].prime());
            i += 1;
            assert(r@ =~= self.prime_list().take(1 + i));
        }
        assert(self.prime_list().take(1 + i) =~= self.prime_list());
        r
    }

    /// The same parameters.
    pub fn copy(&self) -> (p: Params)
        ensures
            p.witness_log_len == self.witness_log_len,
            p.column_log_len == self.column_log_len,
            p.base == self.base,
            p.extra_moduli@ == self.extra_moduli@,
            p.opening == self.opening,
            self.wf() ==> p.wf(),
    {
        let mut extra: Vec<Modulus> = Vec::with_capacity(self.extra_moduli.len());
        let mut i: usize = 0;
        while i < self.extra_moduli.len()
            invariant
                i <= self.extra_moduli@.len(),
                extra@ == self.extra_moduli@.take(i as int),
            decreases self.extra_moduli@.len() - i,
        {
            extra.push(self.extra_moduli[i]);
            i += 1;
            assert(extra@ =~= self.extra_moduli@.take(i as int));
        }
        assert(extra@ =~= self.extra_moduli@);
        Params {
            witness_log_len: self.witness_log_len,
            column_log_len: self.column_log_len,
            base: self.base,
            extra_moduli: extra,
            opening: self.opening,
        }
    }

    /// The same parameters, field by field.
    pub open spec fn same(&self, o: &Params) -> bool {
        &&& self.witness_log_len == o.witness_log_len
        &&& self.column_log_len == o.column_log_len
        &&& self.base == o.base
        &&& self.extra_moduli@ == o.extra_moduli@
        &&& self.opening == o.opening
    }
}

/// The cap on the squared norm of a fold per coefficient of a column of one, as a fraction.
#[derive(Clone, Copy, PartialEq, Eq, Debug)]
pub struct FoldCap {
    pub num: u64,
    pub den: u64,
}

/// A modulus list gives valid parameters at the shape.
pub open spec fn list_ok(witness_log_len: u32, column_log_len: u32, list: Seq<Modulus>) -> bool {
    &&& list.len() >= 1
    &&& refusal(witness_log_len, column_log_len, list[0], list.skip(1)) is None
}

impl Suite {
    /// Every mode of the suite gives valid parameters.
    pub open spec fn wf(&self) -> bool {
        &&& self.witness_log_len < usize::BITS
        &&& list_ok(self.witness_log_len, self.column_log_len_clear, self.moduli@)
        &&& list_ok(self.witness_log_len, self.column_log_len_recursive, self.moduli@)
        &&& list_ok(self.witness_log_len, self.column_log_len_clear, self.moduli_bd@)
    }

    /// The position among [`suites`], for the tables a caller indexes by suite.
    pub fn index(&self) -> (i: usize)
        requires
            self.witness_log_len >= 18,
        ensures
            i == (self.witness_log_len - 18) / 2,
    {
        ((self.witness_log_len - 18) / 2) as usize
    }

    /// The suite that the flag `s`, `m`, `l` or `xl` names, `None` for anything else.
    pub fn from_flag(flag: &str) -> (r: Option<Suite>)
        ensures
            match r {
                Some(s) => {
                    ||| flag@ == "s"@ && is_size(s, 0)
                    ||| flag@ == "m"@ && is_size(s, 1)
                    ||| flag@ == "l"@ && is_size(s, 2)
                    ||| flag@ == "xl"@ && is_size(s, 3)
                },
                None => flag@ != "s"@ && flag@ != "m"@ && flag@ != "l"@ && flag@ != "xl"@,
            },
    {
        proof {
            reveal_strlit("s");
            reveal_strlit("m");
            reveal_strlit("l");
            reveal_strlit("xl");
        }
        let n: usize = flag.unicode_len();
        if n == 1 {
            let c = flag.get_char(0);
            if c == 's' {
                assert(flag@ =~= "s"@);
                return Some(size_s());
            }
            if c == 'm' {
                assert(flag@ =~= "m"@);
                return Some(size_m());
            }
            if c == 'l' {
                assert(flag@ =~= "l"@);
                return Some(size_l());
            }
        }
        if n == 2 {
            if flag.get_char(0) == 'x' && flag.get_char(1) == 'l' {
                assert(flag@ =~= "xl"@);
                return Some(size_xl());
            }
        }
        None
    }
}

proof fn lemma_list(witness_log_len: u32, column_log_len: u32, list: Seq<Modulus>)
    requires
        1 <= column_log_len,
        column_log_len + 7 <= witness_log_len,
        2 <= list.len() <= 3,
        list[0] != list[1],
        list.len() == 3 ==> list[0] != list[2] && list[1] != list[2],
    ensures
        list_ok(witness_log_len, column_log_len, list),
{
    let e = list.skip(1);
    assert(fresh(list[0], e, 0));
    if list.len() == 3 {
        assert(fresh(list[0], e, 1));
    }
    assert(distinct(list[0], e, e.len() as int));
}

/// The suite is size `i`: `s`, `m`, `l` or `xl`.
pub open spec fn is_size(s: Suite, i: int) -> bool {
    let split3 = seq![Modulus::Q3889_FS_S, Modulus::Q2917_Q_S, Modulus::Q4861_Q_S];
    &&& s.wf()
    &&& s.witness_log_len == 18 + 2 * i
    &&& s.column_log_len_clear == 7 + i
    &&& s.column_log_len_recursive == 8 + i
    &&& s.dropped_bits == 10 - i
    &&& s.moduli_bd@ == split3
    &&& s.moduli@ == (if i == 0 {
        seq![Modulus::Q9721_FS_S, Modulus::Q12637_Q_S]
    } else if i == 3 {
        seq![Modulus::Q3889_FS_S, Modulus::Q2917_Q_S, Modulus::Q9721_FS_S]
    } else {
        split3
    })
    &&& s.name@ == (if i == 0 {
        "sizes"@
    } else if i == 1 {
        "sizem"@
    } else if i == 2 {
        "sizel"@
    } else {
        "sizexl"@
    })
}

pub fn size_s() -> (s: Suite)
    ensures
        is_size(s, 0),
{
    let moduli: Vec<Modulus> = vec![Modulus::Q9721_FS_S, Modulus::Q12637_Q_S];
    let moduli_bd: Vec<Modulus> = vec![
        Modulus::Q3889_FS_S,
        Modulus::Q2917_Q_S,
        Modulus::Q4861_Q_S,
    ];
    proof {
        assert(moduli@ =~= seq![Modulus::Q9721_FS_S, Modulus::Q12637_Q_S]);
        assert(moduli_bd@ =~= seq![Modulus::Q3889_FS_S, Modulus::Q2917_Q_S, Modulus::Q4861_Q_S]);
        lemma_list(18, 7, moduli@);
        lemma_list(18, 8, moduli@);
        lemma_list(18, 7, moduli_bd@);
    }
    Suite {
        name: "sizes",
        witness_log_len: 18,
        column_log_len_clear: 7,
        column_log_len_recursive: 8,
        moduli,
        moduli_bd,
        dropped_bits: 10,
    }
}

pub fn size_m() -> (s: Suite)
    ensures
        is_size(s, 1),
{
    let moduli: Vec<Modulus> = vec![Modulus::Q3889_FS_S, Modulus::Q2917_Q_S, Modulus::Q4861_Q_S];
    let moduli_bd: Vec<Modulus> = vec![
        Modulus::Q3889_FS_S,
        Modulus::Q2917_Q_S,
        Modulus::Q4861_Q_S,
    ];
    proof {
        assert(moduli@ =~= seq![Modulus::Q3889_FS_S, Modulus::Q2917_Q_S, Modulus::Q4861_Q_S]);
        assert(moduli_bd@ =~= moduli@);
        lemma_list(20, 8, moduli@);
        lemma_list(20, 9, moduli@);
    }
    Suite {
        name: "sizem",
        witness_log_len: 20,
        column_log_len_clear: 8,
        column_log_len_recursive: 9,
        moduli,
        moduli_bd,
        dropped_bits: 9,
    }
}

pub fn size_l() -> (s: Suite)
    ensures
        is_size(s, 2),
{
    let moduli: Vec<Modulus> = vec![Modulus::Q3889_FS_S, Modulus::Q2917_Q_S, Modulus::Q4861_Q_S];
    let moduli_bd: Vec<Modulus> = vec![
        Modulus::Q3889_FS_S,
        Modulus::Q2917_Q_S,
        Modulus::Q4861_Q_S,
    ];
    proof {
        assert(moduli@ =~= seq![Modulus::Q3889_FS_S, Modulus::Q2917_Q_S, Modulus::Q4861_Q_S]);
        assert(moduli_bd@ =~= moduli@);
        lemma_list(22, 9, moduli@);
        lemma_list(22, 10, moduli@);
    }
    Suite {
        name: "sizel",
        witness_log_len: 22,
        column_log_len_clear: 9,
        column_log_len_recursive: 10,
        moduli,
        moduli_bd,
        dropped_bits: 8,
    }
}

pub fn size_xl() -> (s: Suite)
    ensures
        is_size(s, 3),
{
    let moduli: Vec<Modulus> = vec![Modulus::Q3889_FS_S, Modulus::Q2917_Q_S, Modulus::Q9721_FS_S];
    let moduli_bd: Vec<Modulus> = vec![
        Modulus::Q3889_FS_S,
        Modulus::Q2917_Q_S,
        Modulus::Q4861_Q_S,
    ];
    proof {
        assert(moduli@ =~= seq![Modulus::Q3889_FS_S, Modulus::Q2917_Q_S, Modulus::Q9721_FS_S]);
        assert(moduli_bd@ =~= seq![Modulus::Q3889_FS_S, Modulus::Q2917_Q_S, Modulus::Q4861_Q_S]);
        lemma_list(24, 10, moduli@);
        lemma_list(24, 11, moduli@);
        lemma_list(24, 10, moduli_bd@);
    }
    Suite {
        name: "sizexl",
        witness_log_len: 24,
        column_log_len_clear: 10,
        column_log_len_recursive: 11,
        moduli,
        moduli_bd,
        dropped_bits: 7,
    }
}

/// The four sizes, in ascending order.
pub fn suites() -> (r: Vec<Suite>)
    ensures
        r@.len() == 4,
        forall|i: int| 0 <= i < 4 ==> is_size(#[trigger] r@[i], i),
{
    vec![size_s(), size_m(), size_l(), size_xl()]
}

// ---------------------------------------------------------------------------------------------
// laws
// ---------------------------------------------------------------------------------------------

/// The first entry that is not fresh is not.
proof fn lemma_first_stale(base: Modulus, extra: Seq<Modulus>, i: nat)
    requires
        i <= extra.len(),
        distinct(base, extra, i as int),
    ensures
        i <= first_stale(base, extra, i) <= extra.len(),
        first_stale(base, extra, i) < extra.len() ==> !fresh(
            base,
            extra,
            first_stale(base, extra, i),
        ),
        first_stale(base, extra, i) == extra.len() ==> distinct(base, extra, extra.len() as int),
    decreases extra.len() - i,
{
    if i < extra.len() && fresh(base, extra, i as int) {
        lemma_first_stale(base, extra, i + 1);
    }
}

/// Which shapes are refused and why: there are one column or more, none shorter than 128 elements, and
/// no modulus occurs twice; otherwise the error says which of these fails, and a modulus that it names
/// does occur twice.
pub proof fn refused_shapes(
    witness_log_len: u32,
    column_log_len: u32,
    base: Modulus,
    extra: Seq<Modulus>,
)
    ensures
        ({
            let r = refusal(witness_log_len, column_log_len, base, extra);
            let all = seq![base] + extra;
            &&& r is None <==> 1 <= column_log_len && column_log_len + 7 <= witness_log_len
                && all.no_duplicates()
            &&& r == Some(ParamError::ColumnsExceedWitness) <==> column_log_len > witness_log_len
            &&& r == Some(ParamError::TooFewColumns) <==> column_log_len == 0
            &&& r == Some(ParamError::ColumnTooShort) <==> 1 <= column_log_len <= witness_log_len
                < column_log_len + 7
            &&& r matches Some(ParamError::BaseIsAlsoExtra(m)) ==> m == base && extra.contains(m)
            &&& r matches Some(ParamError::DuplicateModulus(m)) ==> exists|i: int, j: int|
                0 <= i < j < extra.len() && #[trigger] extra[i] == m && #[trigger] extra[j] == m
        }),
{
    let all = seq![base] + extra;
    lemma_first_stale(base, extra, 0);
    if distinct(base, extra, extra.len() as int) {
        assert forall|i: int, j: int| 0 <= i < all.len() && 0 <= j < all.len() && i != j implies all[i]
            != all[j] by {
            let (a, b) = if i < j {
                (i, j)
            } else {
                (j, i)
            };
            assert(fresh(base, extra, b - 1));
            if a > 0 {
                assert(extra[a - 1] != extra[b - 1]);
            }
        }
    }
    if all.no_duplicates() {
        assert forall|i: int| 0 <= i < extra.len() implies #[trigger] fresh(base, extra, i) by {
            assert(all[0] != all[i + 1]);
            assert forall|k: int| 0 <= k < i implies #[trigger] extra[k] != extra[i] by {
                assert(all[k + 1] != all[i + 1]);
            }
        }
    }
    let r = refusal(witness_log_len, column_log_len, base, extra);
    if let Some(ParamError::DuplicateModulus(m)) = r {
        let i = first_stale(base, extra, 0);
        assert(!fresh(base, extra, i));
        let k = choose|k: int| 0 <= k < i && #[trigger] extra[k] == extra[i];
        assert(extra[k] == m && extra[i] == m);
    }
    if let Some(ParamError::BaseIsAlsoExtra(m)) = r {
        let i = first_stale(base, extra, 0);
        assert(extra[i] == m);
    }
}

} // verus!
