//! Fitted linear models: prediction, and the bytes a model is stored as.
use vstd::prelude::*;
use crate::decimal::SCALE;
use crate::features::{feature_words, Property};

verus! {

/// Widest model that can be built or read back.
pub const MAX_WIDTH: usize = 4096;

/// 2^64, the span of a 64-bit word.
pub const WORD_SPAN: u128 = 0x1_0000_0000_0000_0000;

/// Why a prediction could not be made.
#[derive(Clone, Copy, Debug, PartialEq, Eq, Structural)]
pub enum PredictError {
    /// The feature vector's length differs from the model's width: the
    /// model was fitted on another feature layout.
    Configuration,
}

/// Why a stored model could not be had.
#[derive(Clone, Copy, Debug, PartialEq, Eq, Structural)]
pub enum StoreError {
    /// No model has been stored yet.
    ModelNotFound,
    /// The stored bytes are not a model.
    ModelCorrupt,
}

/// A fitted linear model: one coefficient per feature and an intercept, all
/// in millionths.
pub struct TrainedModel {
    coefficients: Vec<i64>,
    intercept: i64,
}

/// One feature's contribution, in millionths, rounded down.
pub open spec fn term(c: i64, x: i64) -> int {
    (c as int * x as int) / (SCALE as int)
}

/// The sum of the first `n` contributions.
pub open spec fn weighted_sum(c: Seq<i64>, x: Seq<i64>, n: nat) -> int
    decreases n,
{
    if n == 0 {
        0
    } else {
        weighted_sum(c, x, (n - 1) as nat) + term(c[n - 1], x[n - 1])
    }
}

/// The model's estimate for a feature vector of its width, in millionths.
pub open spec fn predicted(c: Seq<i64>, b: i64, x: Seq<i64>) -> int {
    b + weighted_sum(c, x, c.len())
}

impl TrainedModel {
    pub closed spec fn coefficients_view(&self) -> Seq<i64> {
        self.coefficients@
    }

    pub closed spec fn intercept_view(&self) -> i64 {
        self.intercept
    }

    pub open spec fn wf(&self) -> bool {
        self.coefficients_view().len() <= MAX_WIDTH
    }

    #[verifier::type_invariant]
    spec fn inv(&self) -> bool {
        self.wf()
    }


    /// A model from its coefficients and intercept; `None` when it is wider
    /// than `MAX_WIDTH`.
    pub fn new(coefficients: Vec<i64>, intercept: i64) -> (r: Option<TrainedModel>)
        ensures
            r matches Some(m) ==> m.wf() && m.coefficients_view() == coefficients@
                && m.intercept_view() == intercept,
            r is None <==> coefficients@.len() > MAX_WIDTH,
    {
        if coefficients.len() > MAX_WIDTH {
            None
        } else {
            Some(TrainedModel { coefficients, intercept })
        }
    }

    pub fn width(&self) -> (r: usize)
        ensures
            r == self.coefficients_view().len(),
    {
        self.coefficients.len()
    }

    pub fn intercept(&self) -> (r: i64)
        ensures
            r == self.intercept_view(),
    {
        self.intercept
    }

    pub fn coefficients(&self) -> (r: &Vec<i64>)
        ensures
            r@ == self.coefficients_view(),
    {
        &self.coefficients
    }

    /// The estimate for a feature vector: the intercept plus each coefficient
    /// times its feature. Fails when the vector's length is not the model's
    /// width.
    pub fn predict(&self, x: &Vec<i64>) -> (r: Result<i128, PredictError>)
        ensures
            r is Err <==> x@.len() != self.coefficients_view().len(),
            r is Err ==> r->Err_0 == PredictError::Configuration,
            r matches Ok(v) ==> v == predicted(self.coefficients_view(), self.intercept_view(), x@),
    {
        proof {
            use_type_invariant(self);
        }
        let n = self.coefficients.len();
        if x.len() != n {
            return Err(PredictError::Configuration);
        }
        let bound: i128 = 0x1_0000_0000_0000_0000_0000_0000_0000;
        let mut sum: i128 = 0;
        let mut i: usize = 0;
        while i < n
            invariant
                i <= n == self.coefficients@.len() == x@.len(),
                n <= MAX_WIDTH,
                bound == 0x1_0000_0000_0000_0000_0000_0000_0000,
                sum == weighted_sum(self.coefficients@, x@, i as nat),
                -(i * bound) <= sum <= i * bound,
            decreases n - i,
        {
            let c = self.coefficients[i];
            let xi = x[i];
            proof {
                lemma_term_bound(c, xi);
            }
            let p: i128 = c as i128 * xi as i128;
            let t = p.checked_div_euclid(1000000i128).unwrap();
            sum = sum + t;
            i = i + 1;
        }
        Ok(self.intercept as i128 + sum)
    }

    /// The bytes that store this model.
    pub fn to_bytes(&self) -> (r: Vec<u8>)
        ensures
            r@ == model_bytes(self.coefficients_view(), self.intercept_view()),
    {
        proof {
            use_type_invariant(self);
        }
        let mut out: Vec<u8> = vec![67u8, 82u8, 86u8, 49u8];
        assert(out@ =~= magic());
        push_le(&mut out, self.coefficients.len() as u128, 4);
        push_le(&mut out, unsigned_word(self.intercept), 8);
        let ghost head = out@;
        let mut i: usize = 0;
        while i < self.coefficients.len()
            invariant
                i <= self.coefficients@.len(),
                out@ == head + words_bytes(self.coefficients@.take(i as int)),
            decreases self.coefficients@.len() - i,
        {
            proof {
                lemma_words_push(self.coefficients@.take(i as int), self.coefficients@[i as int]);
                assert(self.coefficients@.take(i + 1) =~= self.coefficients@.take(i as int).push(
                    self.coefficients@[i as int],
                ));
            }
            push_le(&mut out, unsigned_word(self.coefficients[i]), 8);
            i = i + 1;
        }
        assert(self.coefficients@.take(i as int) =~= self.coefficients@);
        out
    }

    /// Reads a model back from its bytes; `None` when they are not the bytes
    /// of a model.
    pub fn from_bytes(b: &Vec<u8>) -> (r: Option<TrainedModel>)
        ensures
            match r {
                Some(m) => m.wf() && decoded(b@) == Some((m.coefficients_view(), m.intercept_view())),
                None => decoded(b@) is None,
            },
    {
        let n = b.len();
        if n < 16 || b[0] != 67u8 || b[1] != 82u8 || b[2] != 86u8 || b[3] != 49u8 {
            proof {
                if n >= 16 && b@.take(4) == magic() {
                    assert(b@.take(4)[0] == b@[0]);
                    assert(b@.take(4)[1] == b@[1]);
                    assert(b@.take(4)[2] == b@[2]);
                    assert(b@.take(4)[3] == b@[3]);
                }
            }
            return None;
        }
        assert(b@.take(4) =~= magic());
        let w = read_le(b, 4, 4);
        proof {
            lemma_le_value_bound(b@.subrange(4, 8));
        }
        if w > MAX_WIDTH as u128 {
            return None;
        }
        let w = w as usize;
        if n != 16 + 8 * w {
            return None;
        }
        let intercept = signed_word(read_le(b, 8, 8));
        let mut coefficients: Vec<i64> = Vec::new();
        let mut i: usize = 0;
        while i < w
            invariant
                i <= w <= MAX_WIDTH,
                n == b@.len() == 16 + 8 * w,
                coefficients@ =~= Seq::new(i as nat, |j: int| word_at(b@, 16 + 8 * j)),
            decreases w - i,
        {
            let v = signed_word(read_le(b, 16 + 8 * i, 8));
            coefficients.push(v);
            i = i + 1;
        }
        Some(TrainedModel { coefficients, intercept })
    }
}

proof fn lemma_term_bound(c: i64, x: i64)
    ensures
        -0x4000_0000_0000_0000_0000_0000_0000_0000 <= c as int * x as int
            <= 0x4000_0000_0000_0000_0000_0000_0000_0000,
        -0x1_0000_0000_0000_0000_0000_0000_0000 <= term(c, x)
            <= 0x1_0000_0000_0000_0000_0000_0000_0000,
{
    let p = c as int * x as int;
    assert(-0x4000_0000_0000_0000_0000_0000_0000_0000 <= p
        <= 0x4000_0000_0000_0000_0000_0000_0000_0000) by (nonlinear_arith)
        requires
            p == c as int * x as int,
            -0x8000_0000_0000_0000 <= c <= 0x7fff_ffff_ffff_ffff,
            -0x8000_0000_0000_0000 <= x <= 0x7fff_ffff_ffff_ffff,
    ;
    vstd::arithmetic::div_mod::lemma_div_is_ordered(
        -0x4000_0000_0000_0000_0000_0000_0000_0000,
        p,
        1000000,
    );
    vstd::arithmetic::div_mod::lemma_div_is_ordered(
        p,
        0x4000_0000_0000_0000_0000_0000_0000_0000,
        1000000,
    );
}

/// The four bytes every stored model starts with.
pub open spec fn magic() -> Seq<u8> {
    seq![67u8, 82u8, 86u8, 49u8]
}

/// `x` as `n` little-endian bytes.
pub open spec fn le_bytes(x: nat, n: nat) -> Seq<u8>
    decreases n,
{
    if n == 0 {
        Seq::empty()
    } else {
        seq![(x % 256) as u8] + le_bytes(x / 256, (n - 1) as nat)
    }
}

/// The number that little-endian bytes write.
pub open spec fn le_value(s: Seq<u8>) -> nat
    decreases s.len(),
{
    if s.len() == 0 {
        0
    } else {
        s[0] as nat + 256 * le_value(s.drop_first())
    }
}

pub open spec fn pow256(n: nat) -> nat
    decreases n,
{
    if n == 0 {
        1
    } else {
        256 * pow256((n - 1) as nat)
    }
}

/// A signed word as the unsigned number with the same bits.
pub open spec fn unsigned_of(v: i64) -> nat {
    if v >= 0 {
        v as nat
    } else {
        (v + WORD_SPAN) as nat
    }
}

/// An unsigned number below 2^64 as the signed word with the same bits.
pub open spec fn signed_of(u: nat) -> int {
    if u <= i64::MAX {
        u as int
    } else {
        u - WORD_SPAN
    }
}

pub open spec fn word_bytes(v: i64) -> Seq<u8> {
    le_bytes(unsigned_of(v), 8)
}

pub open spec fn words_bytes(s: Seq<i64>) -> Seq<u8>
    decreases s.len(),
{
    if s.len() == 0 {
        Seq::empty()
    } else {
        words_bytes(s.drop_last()) + word_bytes(s.last())
    }
}

/// A stored model: the magic bytes, the width in four bytes, the intercept,
/// then each coefficient, every word in eight little-endian bytes.
pub open spec fn model_bytes(c: Seq<i64>, b: i64) -> Seq<u8> {
    magic() + le_bytes(c.len(), 4) + word_bytes(b) + words_bytes(c)
}

/// The signed word stored at offset `o`.
pub open spec fn word_at(s: Seq<u8>, o: int) -> i64 {
    signed_of(le_value(s.subrange(o, o + 8))) as i64
}

/// The coefficients and intercept that bytes store, if they store a model.
pub open spec fn decoded(s: Seq<u8>) -> Option<(Seq<i64>, i64)> {
    if s.len() >= 16 && s.take(4) == magic() {
        let w = le_value(s.subrange(4, 8));
        if w <= MAX_WIDTH && s.len() == 16 + 8 * w {
            Some((Seq::new(w, |j: int| word_at(s, 16 + 8 * j)), word_at(s, 8)))
        } else {
            None
        }
    } else {
        None
    }
}

fn unsigned_word(v: i64) -> (r: u128)
    ensures
        r == unsigned_of(v),
        r < WORD_SPAN,
{
    if v >= 0 {
        v as u128
    } else {
        (v as i128 + 0x1_0000_0000_0000_0000i128) as u128
    }
}

fn signed_word(u: u128) -> (r: i64)
    requires
        u < WORD_SPAN,
    ensures
        r == signed_of(u as nat),
{
    if u <= 0x7fff_ffff_ffff_ffffu128 {
        u as i64
    } else {
        (u as i128 - 0x1_0000_0000_0000_0000i128) as i64
    }
}

/// Appends `x` as `n` little-endian bytes.
fn push_le(out: &mut Vec<u8>, x: u128, n: usize)
    requires
        n <= 8,
    ensures
        final(out)@ == old(out)@ + le_bytes(x as nat, n as nat),
{
    let ghost start = old(out)@;
    let mut y = x;
    let mut j: usize = 0;
    while j < n
        invariant
            j <= n,
            out@ + le_bytes(y as nat, (n - j) as nat) == start + le_bytes(x as nat, n as nat),
        decreases n - j,
    {
        let ghost rest = le_bytes((y / 256) as nat, (n - j - 1) as nat);
        assert(le_bytes(y as nat, (n - j) as nat) == seq![(y % 256) as u8] + rest);
        let ghost prev = out@;
        out.push((y % 256) as u8);
        assert(out@ + rest =~= prev + (seq![(y % 256) as u8] + rest));
        y = y / 256;
        j = j + 1;
    }
    assert(out@ + le_bytes(y as nat, 0) =~= out@);
}

/// The number written by the `n` little-endian bytes at offset `o`.
fn read_le(b: &Vec<u8>, o: usize, n: usize) -> (r: u128)
    requires
        n <= 8,
        o + n <= b@.len(),
    ensures
        r == le_value(b@.subrange(o as int, o + n)),
        r < pow256(n as nat),
        pow256(n as nat) <= WORD_SPAN,
{
    proof {
        lemma_pow256_mono(0, 8);
        lemma_pow256_mono(n as nat, 8);
        reveal_with_fuel(pow256, 9);
    }
    let len = b.len();
    let mut acc: u128 = 0;
    let mut j: usize = n;
    while j > 0
        invariant
            len == b@.len(),
            j <= n <= 8,
            o + n <= b@.len(),
            acc == le_value(b@.subrange(o + j, o + n)),
            acc < pow256((n - j) as nat),
            pow256((n - j) as nat) <= pow256(8),
        decreases j,
    {
        let ghost s = b@.subrange(o + j - 1, o + n);
        assert(s.drop_first() =~= b@.subrange(o + j, o + n));
        proof {
            lemma_pow256_mono((n - j + 1) as nat, 8);
            lemma_pow256_mono((n - j) as nat, 7);
            reveal_with_fuel(pow256, 9);
        }
        acc = b[o + (j - 1)] as u128 + 256 * acc;
        j = j - 1;
    }
    acc
}

proof fn lemma_pow256_mono(a: nat, b: nat)
    requires
        a <= b,
    ensures
        pow256(a) <= pow256(b),
    decreases b,
{
    if a < b {
        lemma_pow256_mono(a, (b - 1) as nat);
    }
}

proof fn lemma_le_value_bound(s: Seq<u8>)
    ensures
        le_value(s) < pow256(s.len()),
    decreases s.len(),
{
    if s.len() > 0 {
        lemma_le_value_bound(s.drop_first());
    }
}

proof fn lemma_le_round_trip(x: nat, n: nat)
    requires
        x < pow256(n),
    ensures
        le_bytes(x, n).len() == n,
        le_value(le_bytes(x, n)) == x,
    decreases n,
{
    if n > 0 {
        lemma_le_round_trip(x / 256, (n - 1) as nat);
        assert(le_bytes(x, n).drop_first() =~= le_bytes(x / 256, (n - 1) as nat));
    }
}

proof fn lemma_words_push(s: Seq<i64>, v: i64)
    ensures
        words_bytes(s.push(v)) == words_bytes(s) + word_bytes(v),
{
    assert(s.push(v).drop_last() =~= s);
}

proof fn lemma_words_layout(s: Seq<i64>)
    ensures
        words_bytes(s).len() == 8 * s.len(),
        forall|i: int|
            0 <= i < s.len() ==> #[trigger] words_bytes(s).subrange(8 * i, 8 * i + 8)
                == word_bytes(s[i]),
    decreases s.len(),
{
    if s.len() > 0 {
        let t = s.drop_last();
        lemma_words_layout(t);
        lemma_le_round_trip_len(unsigned_of(s.last()));
        assert forall|i: int| 0 <= i < s.len() implies #[trigger] words_bytes(s).subrange(
            8 * i,
            8 * i + 8,
        ) == word_bytes(s[i]) by {
            if i < t.len() {
                assert(words_bytes(s).subrange(8 * i, 8 * i + 8) =~= words_bytes(t).subrange(
                    8 * i,
                    8 * i + 8,
                ));
            } else {
                assert(words_bytes(s).subrange(8 * i, 8 * i + 8) =~= word_bytes(s.last()));
            }
        }
    }
}

proof fn lemma_le_round_trip_len(x: nat)
    requires
        x < WORD_SPAN,
    ensures
        le_bytes(x, 8).len() == 8,
        le_value(le_bytes(x, 8)) == x,
{
    reveal_with_fuel(pow256, 9);
    lemma_le_round_trip(x, 8);
}

/// Storing a model and reading the bytes back gives the same coefficients
/// and intercept, so the model read back predicts exactly as the one stored.
pub proof fn lemma_store_round_trip(c: Seq<i64>, b: i64, x: Seq<i64>)
    requires
        c.len() <= MAX_WIDTH,
    ensures
        decoded(model_bytes(c, b)) == Some((c, b)),
        ({
            let d = decoded(model_bytes(c, b))->Some_0;
            predicted(d.0, d.1, x) == predicted(c, b, x)
        }),
{
    let s = model_bytes(c, b);
    reveal_with_fuel(pow256, 9);
    lemma_le_round_trip(c.len(), 4);
    lemma_le_round_trip_len(unsigned_of(b));
    lemma_words_layout(c);
    assert(s.take(4) =~= magic());
    assert(s.subrange(4, 8) =~= le_bytes(c.len(), 4));
    assert(s.subrange(8, 16) =~= word_bytes(b));
    let w = c.len();
    assert forall|j: int| 0 <= j < w implies #[trigger] word_at(s, 16 + 8 * j) == c[j] by {
        assert(s.subrange(16 + 8 * j, 16 + 8 * j + 8) =~= words_bytes(c).subrange(8 * j, 8 * j + 8));
        lemma_le_round_trip_len(unsigned_of(c[j]));
    }
    assert(Seq::new(w, |j: int| word_at(s, 16 + 8 * j)) =~= c);
}

/// What a prediction is made from.
pub struct Cervo {
    model: TrainedModel,
}

impl Cervo {
    pub closed spec fn model_view(&self) -> &TrainedModel {
        &self.model
    }

    /// An estimator around a fitted model.
    pub fn from_model(model: TrainedModel) -> (r: Cervo)
        ensures
            r.model_view() == model,
    {
        Cervo { model }
    }

    pub fn model(&self) -> (r: &TrainedModel)
        ensures
            r == self.model_view(),
    {
        &self.model
    }

    /// The estimated price of a property, in millionths of a euro.
    pub fn predict_price(&self, property: &Property) -> (r: Result<i128, PredictError>)
        ensures
            r is Err <==> self.model_view().coefficients_view().len() != 11,
            r matches Ok(v) ==> v == predicted(
                self.model_view().coefficients_view(),
                self.model_view().intercept_view(),
                feature_words(*property),
            ),
    {
        let features = property.to_feature_vector();
        self.model.predict(&features)
    }
}

/// The model held in the store, given what the store's file holds, or
/// `None` when there is no such file.
pub fn model_from_stored(contents: Option<Vec<u8>>) -> (r: Result<TrainedModel, StoreError>)
    ensures
        match contents {
            None => r == Err::<TrainedModel, StoreError>(StoreError::ModelNotFound),
            Some(b) => match r {
                Ok(m) => m.wf() && decoded(b@) == Some((m.coefficients_view(), m.intercept_view())),
                Err(e) => e == StoreError::ModelCorrupt && decoded(b@) is None,
            },
        },
{
    match contents {
        None => Err(StoreError::ModelNotFound),
        Some(b) => match TrainedModel::from_bytes(&b) {
            Some(m) => Ok(m),
            None => Err(StoreError::ModelCorrupt),
        },
    }
}

} // verus!
