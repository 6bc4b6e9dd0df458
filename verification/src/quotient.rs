//! Stable signatures and the quotient partition they induce.
//!
//! Signatures carry a pinned total order: variants rank in declaration
//! order, then element-wise comparison inside each variant. The order
//! governs class ordering and hash reproducibility.

use vstd::prelude::*;
use vstd::string::StrSliceExecFns;

verus! {

broadcast use vstd::std_specs::vec::group_vec_axioms;

/// A stable signature value for quotients and partitions.
pub enum Signature {
    Bits(Vec<bool>),
    Text(String),
    PairI64(i64, i64),
    Tuple(Vec<Signature>),
}

/// A signature, mathematical form.
pub enum SigView {
    Bits(Seq<bool>),
    Text(Seq<char>),
    PairI64(int, int),
    Tuple(Seq<SigView>),
}

pub open spec fn sig_view(s: Signature) -> SigView
    decreases s,
{
    match s {
        Signature::Bits(bs) => SigView::Bits(bs@),
        Signature::Text(t) => SigView::Text(t@),
        Signature::PairI64(a, b) => SigView::PairI64(a as int, b as int),
        Signature::Tuple(xs) => SigView::Tuple(sig_view_seq(xs@)),
    }
}

pub open spec fn sig_view_seq(xs: Seq<Signature>) -> Seq<SigView>
    decreases xs,
{
    if xs.len() == 0 {
        Seq::empty()
    } else {
        seq![sig_view(xs[0])] + sig_view_seq(xs.drop_first())
    }
}

pub broadcast proof fn lemma_sig_view_seq_index(xs: Seq<Signature>)
    ensures
        (#[trigger] sig_view_seq(xs)).len() == xs.len(),
        forall|i: int| 0 <= i < xs.len() ==> sig_view_seq(xs)[i] == sig_view(xs[i]),
    decreases xs,
{
    if xs.len() > 0 {
        lemma_sig_view_seq_index(xs.drop_first());
        assert forall|i: int| 0 <= i < xs.len() implies sig_view_seq(xs)[i] == sig_view(
            xs[i],
        ) by {
            if i > 0 {
                assert(xs.drop_first()[i - 1] == xs[i]);
            }
        }
    }
}

impl View for Signature {
    type V = SigView;

    open spec fn view(&self) -> SigView {
        sig_view(*self)
    }
}

/// The fixed rank of each variant in the total order.
pub open spec fn sig_rank(s: SigView) -> int {
    match s {
        SigView::Bits(_) => 0,
        SigView::Text(_) => 1,
        SigView::PairI64(_, _) => 2,
        SigView::Tuple(_) => 3,
    }
}

/// Lexicographic comparison of bit vectors: false below true, then the
/// shorter first.
pub open spec fn bools_cmp(x: Seq<bool>, y: Seq<bool>) -> int
    decreases x.len(),
{
    if x.len() == 0 && y.len() == 0 {
        0
    } else if x.len() == 0 {
        -1
    } else if y.len() == 0 {
        1
    } else if !x[0] && y[0] {
        -1
    } else if x[0] && !y[0] {
        1
    } else {
        bools_cmp(x.drop_first(), y.drop_first())
    }
}

/// Lexicographic comparison of texts by code point, which coincides with
/// byte-wise order of their encodings.
pub open spec fn chars_cmp(x: Seq<char>, y: Seq<char>) -> int
    decreases x.len(),
{
    if x.len() == 0 && y.len() == 0 {
        0
    } else if x.len() == 0 {
        -1
    } else if y.len() == 0 {
        1
    } else if (x[0] as u32) < (y[0] as u32) {
        -1
    } else if (x[0] as u32) > (y[0] as u32) {
        1
    } else {
        chars_cmp(x.drop_first(), y.drop_first())
    }
}

/// The pinned total order: by variant rank, then within the variant.
pub open spec fn sig_cmp(a: SigView, b: SigView) -> int
    decreases a,
{
    if sig_rank(a) != sig_rank(b) {
        if sig_rank(a) < sig_rank(b) {
            -1
        } else {
            1
        }
    } else {
        match (a, b) {
            (SigView::Bits(x), SigView::Bits(y)) => bools_cmp(x, y),
            (SigView::Text(x), SigView::Text(y)) => chars_cmp(x, y),
            (SigView::PairI64(a1, b1), SigView::PairI64(a2, b2)) => if a1 < a2 {
                -1
            } else if a1 > a2 {
                1
            } else if b1 < b2 {
                -1
            } else if b1 > b2 {
                1
            } else {
                0
            },
            (SigView::Tuple(x), SigView::Tuple(y)) => sig_cmp_seq(x, y),
            _ => 0,
        }
    }
}

/// Element-wise comparison of tuples, then the shorter first.
pub open spec fn sig_cmp_seq(x: Seq<SigView>, y: Seq<SigView>) -> int
    decreases x,
{
    if x.len() == 0 && y.len() == 0 {
        0
    } else if x.len() == 0 {
        -1
    } else if y.len() == 0 {
        1
    } else if sig_cmp(x[0], y[0]) != 0 {
        sig_cmp(x[0], y[0])
    } else {
        sig_cmp_seq(x.drop_first(), y.drop_first())
    }
}

proof fn lemma_char_eq(a: char, b: char)
    requires
        a as u32 == b as u32,
    ensures
        a == b,
{
    vstd::utf8::char_u32_cast(a, a as u32);
    vstd::utf8::char_u32_cast(b, a as u32);
}

proof fn lemma_bools_cmp_zero(x: Seq<bool>, y: Seq<bool>)
    ensures
        bools_cmp(x, y) == 0 <==> x == y,
    decreases x.len(),
{
    if x.len() > 0 && y.len() > 0 && x[0] == y[0] {
        lemma_bools_cmp_zero(x.drop_first(), y.drop_first());
        if x.drop_first() == y.drop_first() {
            assert(x.len() == y.len());
            assert forall|i: int| 0 <= i < x.len() implies x[i] == y[i] by {
                if i > 0 {
                    assert(x[i] == x.drop_first()[i - 1]);
                    assert(y[i] == y.drop_first()[i - 1]);
                }
            }
            assert(x =~= y);
        }
        if x == y {
            assert(x.drop_first() =~= y.drop_first());
        }
    } else if x.len() > 0 && y.len() > 0 {
        assert(x[0] != y[0]);
        assert(x != y);
    } else if x.len() != y.len() {
        assert(x != y);
    } else {
        assert(x =~= y);
    }
}

proof fn lemma_chars_cmp_zero(x: Seq<char>, y: Seq<char>)
    ensures
        chars_cmp(x, y) == 0 <==> x == y,
    decreases x.len(),
{
    if x.len() > 0 && y.len() > 0 && x[0] as u32 == y[0] as u32 {
        lemma_char_eq(x[0], y[0]);
        lemma_chars_cmp_zero(x.drop_first(), y.drop_first());
        if x.drop_first() == y.drop_first() {
            assert(x.len() == y.len());
            assert forall|i: int| 0 <= i < x.len() implies x[i] == y[i] by {
                if i > 0 {
                    assert(x[i] == x.drop_first()[i - 1]);
                    assert(y[i] == y.drop_first()[i - 1]);
                }
            }
            assert(x =~= y);
        }
        if x == y {
            assert(x.drop_first() =~= y.drop_first());
        }
    } else if x.len() > 0 && y.len() > 0 {
        assert(x[0] != y[0]);
        assert(x != y);
    } else if x.len() != y.len() {
        assert(x != y);
    } else {
        assert(x =~= y);
    }
}

/// Comparison result zero means the very same signature.
pub proof fn lemma_sig_cmp_zero(a: SigView, b: SigView)
    ensures
        sig_cmp(a, b) == 0 <==> a == b,
    decreases a,
{
    if sig_rank(a) == sig_rank(b) {
        match (a, b) {
            (SigView::Bits(x), SigView::Bits(y)) => {
                lemma_bools_cmp_zero(x, y);
            },
            (SigView::Text(x), SigView::Text(y)) => {
                lemma_chars_cmp_zero(x, y);
            },
            (SigView::PairI64(a1, b1), SigView::PairI64(a2, b2)) => {},
            (SigView::Tuple(x), SigView::Tuple(y)) => {
                lemma_sig_cmp_seq_zero(x, y);
            },
            _ => {},
        }
    }
}

proof fn lemma_sig_cmp_seq_zero(x: Seq<SigView>, y: Seq<SigView>)
    ensures
        sig_cmp_seq(x, y) == 0 <==> x == y,
    decreases x,
{
    if x.len() > 0 && y.len() > 0 {
        lemma_sig_cmp_zero(x[0], y[0]);
        if sig_cmp(x[0], y[0]) == 0 {
            lemma_sig_cmp_seq_zero(x.drop_first(), y.drop_first());
            if x.drop_first() == y.drop_first() {
                assert(x.len() == y.len());
                assert forall|i: int| 0 <= i < x.len() implies x[i] == y[i] by {
                    if i > 0 {
                        assert(x[i] == x.drop_first()[i - 1]);
                        assert(y[i] == y.drop_first()[i - 1]);
                    }
                }
                assert(x =~= y);
            }
            if x == y {
                assert(x.drop_first() =~= y.drop_first());
            }
        } else {
            assert(x[0] != y[0]);
            assert(x != y);
        }
    } else if x.len() != y.len() {
        assert(x != y);
    } else {
        assert(x =~= y);
    }
}

proof fn lemma_bools_cmp_antisym(x: Seq<bool>, y: Seq<bool>)
    ensures
        bools_cmp(x, y) == -bools_cmp(y, x),
    decreases x.len(),
{
    if x.len() > 0 && y.len() > 0 && x[0] == y[0] {
        lemma_bools_cmp_antisym(x.drop_first(), y.drop_first());
    }
}

proof fn lemma_chars_cmp_antisym(x: Seq<char>, y: Seq<char>)
    ensures
        chars_cmp(x, y) == -chars_cmp(y, x),
    decreases x.len(),
{
    if x.len() > 0 && y.len() > 0 && x[0] as u32 == y[0] as u32 {
        lemma_chars_cmp_antisym(x.drop_first(), y.drop_first());
    }
}

/// The order is antisymmetric: swapping the operands flips the sign.
pub proof fn lemma_sig_cmp_antisym(a: SigView, b: SigView)
    ensures
        sig_cmp(a, b) == -sig_cmp(b, a),
    decreases a,
{
    if sig_rank(a) == sig_rank(b) {
        match (a, b) {
            (SigView::Bits(x), SigView::Bits(y)) => {
                lemma_bools_cmp_antisym(x, y);
            },
            (SigView::Text(x), SigView::Text(y)) => {
                lemma_chars_cmp_antisym(x, y);
            },
            (SigView::PairI64(a1, b1), SigView::PairI64(a2, b2)) => {},
            (SigView::Tuple(x), SigView::Tuple(y)) => {
                lemma_sig_cmp_seq_antisym(x, y);
            },
            _ => {},
        }
    }
}

proof fn lemma_sig_cmp_seq_antisym(x: Seq<SigView>, y: Seq<SigView>)
    ensures
        sig_cmp_seq(x, y) == -sig_cmp_seq(y, x),
    decreases x,
{
    if x.len() > 0 && y.len() > 0 {
        lemma_sig_cmp_antisym(x[0], y[0]);
        if sig_cmp(x[0], y[0]) == 0 {
            lemma_sig_cmp_seq_antisym(x.drop_first(), y.drop_first());
        }
    }
}

proof fn lemma_bools_cmp_trans(x: Seq<bool>, y: Seq<bool>, z: Seq<bool>)
    requires
        bools_cmp(x, y) < 0,
        bools_cmp(y, z) < 0,
    ensures
        bools_cmp(x, z) < 0,
    decreases x.len(),
{
    if x.len() > 0 && y.len() > 0 && z.len() > 0 && x[0] == y[0] && y[0] == z[0] {
        lemma_bools_cmp_trans(x.drop_first(), y.drop_first(), z.drop_first());
    }
}

proof fn lemma_chars_cmp_trans(x: Seq<char>, y: Seq<char>, z: Seq<char>)
    requires
        chars_cmp(x, y) < 0,
        chars_cmp(y, z) < 0,
    ensures
        chars_cmp(x, z) < 0,
    decreases x.len(),
{
    if x.len() > 0 && y.len() > 0 && z.len() > 0 && x[0] as u32 == y[0] as u32 && y[0] as u32
        == z[0] as u32 {
        lemma_chars_cmp_trans(x.drop_first(), y.drop_first(), z.drop_first());
    }
}

/// The strict order is transitive.
pub proof fn lemma_sig_cmp_trans(a: SigView, b: SigView, c: SigView)
    requires
        sig_cmp(a, b) < 0,
        sig_cmp(b, c) < 0,
    ensures
        sig_cmp(a, c) < 0,
    decreases a,
{
    if sig_rank(a) == sig_rank(b) && sig_rank(b) == sig_rank(c) {
        match (a, b, c) {
            (SigView::Bits(x), SigView::Bits(y), SigView::Bits(z)) => {
                lemma_bools_cmp_trans(x, y, z);
            },
            (SigView::Text(x), SigView::Text(y), SigView::Text(z)) => {
                lemma_chars_cmp_trans(x, y, z);
            },
            (
                SigView::PairI64(a1, b1),
                SigView::PairI64(a2, b2),
                SigView::PairI64(a3, b3),
            ) => {},
            (SigView::Tuple(x), SigView::Tuple(y), SigView::Tuple(z)) => {
                lemma_sig_cmp_seq_trans(x, y, z);
            },
            _ => {},
        }
    }
}

proof fn lemma_sig_cmp_seq_trans(x: Seq<SigView>, y: Seq<SigView>, z: Seq<SigView>)
    requires
        sig_cmp_seq(x, y) < 0,
        sig_cmp_seq(y, z) < 0,
    ensures
        sig_cmp_seq(x, z) < 0,
    decreases x,
{
    if x.len() > 0 && y.len() > 0 && z.len() > 0 {
        lemma_sig_cmp_zero(x[0], y[0]);
        lemma_sig_cmp_zero(y[0], z[0]);
        lemma_sig_cmp_zero(x[0], z[0]);
        if sig_cmp(x[0], y[0]) == 0 && sig_cmp(y[0], z[0]) == 0 {
            lemma_sig_cmp_seq_trans(x.drop_first(), y.drop_first(), z.drop_first());
        } else if sig_cmp(x[0], y[0]) == 0 {
            assert(x[0] == y[0]);
        } else if sig_cmp(y[0], z[0]) == 0 {
            assert(y[0] == z[0]);
        } else {
            lemma_sig_cmp_trans(x[0], y[0], z[0]);
        }
    }
}

proof fn lemma_bools_cmp_skip(x: Seq<bool>, y: Seq<bool>, i: int)
    requires
        0 <= i <= x.len(),
        i <= y.len(),
        forall|k: int| 0 <= k < i ==> x[k] == y[k],
    ensures
        bools_cmp(x, y) == bools_cmp(x.skip(i), y.skip(i)),
    decreases i,
{
    if i > 0 {
        assert(x.len() > 0 && y.len() > 0 && x[0] == y[0]);
        assert forall|k: int| 0 <= k < i - 1 implies x.drop_first()[k] == y.drop_first()[k] by {
            assert(x.drop_first()[k] == x[k + 1]);
            assert(y.drop_first()[k] == y[k + 1]);
        }
        lemma_bools_cmp_skip(x.drop_first(), y.drop_first(), i - 1);
        assert(x.drop_first().skip(i - 1) =~= x.skip(i));
        assert(y.drop_first().skip(i - 1) =~= y.skip(i));
    } else {
        assert(x.skip(0) =~= x);
        assert(y.skip(0) =~= y);
    }
}

proof fn lemma_chars_cmp_skip(x: Seq<char>, y: Seq<char>, i: int)
    requires
        0 <= i <= x.len(),
        i <= y.len(),
        forall|k: int| 0 <= k < i ==> x[k] == y[k],
    ensures
        chars_cmp(x, y) == chars_cmp(x.skip(i), y.skip(i)),
    decreases i,
{
    if i > 0 {
        assert(x.len() > 0 && y.len() > 0 && x[0] == y[0]);
        assert forall|k: int| 0 <= k < i - 1 implies x.drop_first()[k] == y.drop_first()[k] by {
            assert(x.drop_first()[k] == x[k + 1]);
            assert(y.drop_first()[k] == y[k + 1]);
        }
        lemma_chars_cmp_skip(x.drop_first(), y.drop_first(), i - 1);
        assert(x.drop_first().skip(i - 1) =~= x.skip(i));
        assert(y.drop_first().skip(i - 1) =~= y.skip(i));
    } else {
        assert(x.skip(0) =~= x);
        assert(y.skip(0) =~= y);
    }
}

proof fn lemma_sig_cmp_seq_skip(x: Seq<SigView>, y: Seq<SigView>, i: int)
    requires
        0 <= i <= x.len(),
        i <= y.len(),
        forall|k: int| 0 <= k < i ==> sig_cmp(x[k], y[k]) == 0,
    ensures
        sig_cmp_seq(x, y) == sig_cmp_seq(x.skip(i), y.skip(i)),
    decreases i,
{
    if i > 0 {
        assert(x.len() > 0 && y.len() > 0 && sig_cmp(x[0], y[0]) == 0);
        assert forall|k: int| 0 <= k < i - 1 implies sig_cmp(
            x.drop_first()[k],
            y.drop_first()[k],
        ) == 0 by {
            assert(x.drop_first()[k] == x[k + 1]);
            assert(y.drop_first()[k] == y[k + 1]);
        }
        lemma_sig_cmp_seq_skip(x.drop_first(), y.drop_first(), i - 1);
        assert(x.drop_first().skip(i - 1) =~= x.skip(i));
        assert(y.drop_first().skip(i - 1) =~= y.skip(i));
    } else {
        assert(x.skip(0) =~= x);
        assert(y.skip(0) =~= y);
    }
}

impl Signature {
    /// A structurally identical copy of the signature.
    pub fn deep_clone(&self) -> (r: Signature)
        ensures
            r@ == self@,
        decreases self,
    {
        match self {
            Signature::Bits(bs) => Signature::Bits(bs.clone()),
            Signature::Text(t) => Signature::Text(t.clone()),
            Signature::PairI64(a, b) => Signature::PairI64(*a, *b),
            Signature::Tuple(xs) => {
                let mut copy: Vec<Signature> = Vec::new();
                let mut i: usize = 0;
                while i < xs.len()
                    invariant
                        *self == Signature::Tuple(*xs),
                        i <= xs@.len(),
                        copy@.len() == i,
                        forall|k: int| 0 <= k < i ==> (#[trigger] copy@[k])@ == xs@[k]@,
                    decreases xs@.len() - i,
                {
                    proof {
                        assert(decreases_to!(*self => self->Tuple_0));
                        assert(decreases_to!(*xs => xs@[i as int]));
                    }
                    copy.push(xs[i].deep_clone());
                    i = i + 1;
                }
                let r = Signature::Tuple(copy);
                proof {
                    lemma_sig_view_seq_index(copy@);
                    lemma_sig_view_seq_index(xs@);
                    assert(sig_view_seq(copy@) =~= sig_view_seq(xs@));
                }
                r
            },
        }
    }

    /// The rank of the variant in the pinned order.
    fn rank(&self) -> (r: i8)
        ensures
            r as int == sig_rank(self@),
    {
        match self {
            Signature::Bits(_) => 0,
            Signature::Text(_) => 1,
            Signature::PairI64(_, _) => 2,
            Signature::Tuple(_) => 3,
        }
    }

    /// Comparison in the pinned total order, as a sign.
    pub fn cmp_sig(&self, other: &Signature) -> (r: i8)
        ensures
            r as int == sig_cmp(self@, other@),
        decreases self,
    {
        let ra = self.rank();
        let rb = other.rank();
        if ra != rb {
            return if ra < rb {
                -1
            } else {
                1
            };
        }
        match (self, other) {
            (Signature::Bits(x), Signature::Bits(y)) => {
                let n = x.len();
                let m = y.len();
                let mut i: usize = 0;
                while i < n && i < m
                    invariant
                        *self == Signature::Bits(*x),
                        *other == Signature::Bits(*y),
                        n == x@.len(),
                        m == y@.len(),
                        i <= n,
                        i <= m,
                        forall|k: int| 0 <= k < i ==> x@[k] == y@[k],
                    decreases n - i,
                {
                    let xv = x[i];
                    let yv = y[i];
                    if !xv && yv {
                        proof {
                            lemma_bools_cmp_skip(x@, y@, i as int);
                        }
                        return -1;
                    }
                    if xv && !yv {
                        proof {
                            lemma_bools_cmp_skip(x@, y@, i as int);
                        }
                        return 1;
                    }
                    i = i + 1;
                }
                proof {
                    lemma_bools_cmp_skip(x@, y@, i as int);
                }
                if n == m {
                    0
                } else if n < m {
                    -1
                } else {
                    1
                }
            },
            (Signature::Text(x), Signature::Text(y)) => {
                let xs: &str = x.as_str();
                let ys: &str = y.as_str();
                let n = xs.unicode_len();
                let m = ys.unicode_len();
                let mut i: usize = 0;
                while i < n && i < m
                    invariant
                        *self == Signature::Text(*x),
                        *other == Signature::Text(*y),
                        n == xs@.len(),
                        m == ys@.len(),
                        xs@ == x@,
                        ys@ == y@,
                        i <= n,
                        i <= m,
                        forall|k: int| 0 <= k < i ==> x@[k] == y@[k],
                    decreases n - i,
                {
                    let xc = xs.get_char(i);
                    let yc = ys.get_char(i);
                    let xu: u32 = xc as u32;
                    let yu: u32 = yc as u32;
                    if xu < yu {
                        proof {
                            lemma_chars_cmp_skip(x@, y@, i as int);
                        }
                        return -1;
                    }
                    if xu > yu {
                        proof {
                            lemma_chars_cmp_skip(x@, y@, i as int);
                        }
                        return 1;
                    }
                    proof {
                        lemma_char_eq(xc, yc);
                    }
                    i = i + 1;
                }
                proof {
                    lemma_chars_cmp_skip(x@, y@, i as int);
                }
                if n == m {
                    0
                } else if n < m {
                    -1
                } else {
                    1
                }
            },
            (Signature::PairI64(a1, b1), Signature::PairI64(a2, b2)) => {
                if *a1 < *a2 {
                    -1
                } else if *a1 > *a2 {
                    1
                } else if *b1 < *b2 {
                    -1
                } else if *b1 > *b2 {
                    1
                } else {
                    0
                }
            },
            (Signature::Tuple(x), Signature::Tuple(y)) => {
                let n = x.len();
                let m = y.len();
                let ghost xv = sig_view_seq(x@);
                let ghost yv = sig_view_seq(y@);
                proof {
                    lemma_sig_view_seq_index(x@);
                    lemma_sig_view_seq_index(y@);
                }
                let mut i: usize = 0;
                while i < n && i < m
                    invariant
                        *self == Signature::Tuple(*x),
                        *other == Signature::Tuple(*y),
                        n == x@.len(),
                        m == y@.len(),
                        xv == sig_view_seq(x@),
                        yv == sig_view_seq(y@),
                        xv.len() == n,
                        yv.len() == m,
                        forall|k: int| 0 <= k < n ==> xv[k] == sig_view(x@[k]),
                        forall|k: int| 0 <= k < m ==> yv[k] == sig_view(y@[k]),
                        i <= n,
                        i <= m,
                        forall|k: int| 0 <= k < i ==> sig_cmp(xv[k], yv[k]) == 0,
                    decreases n - i,
                {
                    proof {
                        assert(decreases_to!(*self => self->Tuple_0));
                        assert(decreases_to!(*x => x@[i as int]));
                    }
                    let c = x[i].cmp_sig(&y[i]);
                    if c != 0 {
                        proof {
                            lemma_sig_cmp_seq_skip(xv, yv, i as int);
                        }
                        return c;
                    }
                    i = i + 1;
                }
                proof {
                    lemma_sig_cmp_seq_skip(xv, yv, i as int);
                }
                if n == m {
                    0
                } else if n < m {
                    -1
                } else {
                    1
                }
            },
            _ => {
                proof {
                    assert(false);
                }
                0
            },
        }
    }
}

/// A deterministic quotient partition: classes ordered by the signature
/// order, member lists in encounter order.
pub struct Quotient<U> {
    pub classes: Vec<(Signature, Vec<U>)>,
}

/// The classes as mathematical pairs of signature and member list.
pub open spec fn q_view<U>(q: &Quotient<U>) -> Seq<(SigView, Seq<U>)> {
    Seq::new(q.classes@.len(), |i: int| (q.classes@[i].0@, q.classes@[i].1@))
}

/// Files one element under its signature: a new class is inserted at its
/// ordered position, an existing class gets the element appended.
pub open spec fn q_insert<U>(q: Seq<(SigView, Seq<U>)>, sig: SigView, x: U) -> Seq<
    (SigView, Seq<U>),
>
    decreases q.len(),
{
    if q.len() == 0 {
        seq![(sig, seq![x])]
    } else if sig_cmp(sig, q[0].0) < 0 {
        seq![(sig, seq![x])] + q
    } else if sig_cmp(sig, q[0].0) == 0 {
        seq![(q[0].0, q[0].1.push(x))] + q.drop_first()
    } else {
        seq![q[0]] + q_insert(q.drop_first(), sig, x)
    }
}

/// The quotient of the first `n` elements under their signatures.
pub open spec fn spec_quotient<U>(items: Seq<U>, sigs: Seq<SigView>, n: int) -> Seq<
    (SigView, Seq<U>),
>
    decreases n,
{
    if n <= 0 {
        Seq::empty()
    } else {
        q_insert(spec_quotient(items, sigs, n - 1), sigs[n - 1], items[n - 1])
    }
}

/// What one insertion does, located by the walk position: all classes
/// before `pos` order strictly below `sig`.
proof fn lemma_q_insert_at<U>(q: Seq<(SigView, Seq<U>)>, sig: SigView, x: U, pos: int)
    requires
        0 <= pos <= q.len(),
        forall|k: int| 0 <= k < pos ==> sig_cmp(sig, (#[trigger] q[k]).0) > 0,
        pos < q.len() ==> sig_cmp(sig, q[pos].0) <= 0,
    ensures
        pos < q.len() && sig_cmp(sig, q[pos].0) == 0 ==> q_insert(q, sig, x) == q.update(
            pos,
            (q[pos].0, q[pos].1.push(x)),
        ),
        !(pos < q.len() && sig_cmp(sig, q[pos].0) == 0) ==> q_insert(q, sig, x) == q.insert(
            pos,
            (sig, seq![x]),
        ),
    decreases q.len(),
{
    if q.len() == 0 {
        assert(q_insert(q, sig, x) =~= q.insert(0, (sig, seq![x])));
    } else if pos == 0 {
        if sig_cmp(sig, q[0].0) < 0 {
            assert(q_insert(q, sig, x) =~= q.insert(0, (sig, seq![x])));
        } else if sig_cmp(sig, q[0].0) == 0 {
            assert(q_insert(q, sig, x) =~= q.update(0, (q[0].0, q[0].1.push(x))));
        }
    } else {
        assert(sig_cmp(sig, q[0].0) > 0);
        assert forall|k: int| 0 <= k < pos - 1 implies sig_cmp(
            sig,
            (#[trigger] q.drop_first()[k]).0,
        ) > 0 by {
            assert(q.drop_first()[k] == q[k + 1]);
        }
        assert(pos - 1 < q.drop_first().len() ==> q.drop_first()[pos - 1] == q[pos]);
        lemma_q_insert_at(q.drop_first(), sig, x, pos - 1);
        if pos < q.len() && sig_cmp(sig, q[pos].0) == 0 {
            assert(q_insert(q, sig, x) =~= q.update(pos, (q[pos].0, q[pos].1.push(x))));
        } else {
            assert(q_insert(q, sig, x) =~= q.insert(pos, (sig, seq![x])));
        }
    }
}

impl<U: Copy> Quotient<U> {
    /// Groups the elements under their signatures: one class per distinct
    /// signature, classes in signature order, members in encounter order.
    pub fn from_signatures(items: &[U], sigs: &[Signature]) -> (r: Quotient<U>)
        requires
            items@.len() == sigs@.len(),
        ensures
            q_view(&r) == spec_quotient(
                items@,
                Seq::new(sigs@.len(), |i: int| sigs@[i]@),
                items@.len() as int,
            ),
            q_sorted(q_view(&r)),
    {
        let ghost sigviews = Seq::new(sigs@.len(), |i: int| sigs@[i]@);
        let mut classes: Vec<(Signature, Vec<U>)> = Vec::new();
        let mut i: usize = 0;
        while i < items.len()
            invariant
                items@.len() == sigs@.len(),
                sigviews == Seq::new(sigs@.len(), |k: int| sigs@[k]@),
                i <= items@.len(),
                Seq::new(classes@.len(), |k: int| (classes@[k].0@, classes@[k].1@))
                    == spec_quotient(items@, sigviews, i as int),
            decreases items@.len() - i,
        {
            let ghost before = Seq::new(classes@.len(), |k: int| (classes@[k].0@, classes@[k].1@));
            let sig = &sigs[i];
            let mut pos: usize = 0;
            let mut found_eq: bool = false;
            loop
                invariant_except_break
                    !found_eq,
                    pos <= classes@.len(),
                    before == Seq::new(
                        classes@.len(),
                        |k: int| (classes@[k].0@, classes@[k].1@),
                    ),
                    before.len() == classes@.len(),
                    sigviews == Seq::new(sigs@.len(), |k: int| sigs@[k]@),
                    i < items@.len(),
                    items@.len() == sigs@.len(),
                    sig@ == sigviews[i as int],
                    forall|k: int| 0 <= k < pos ==> sig_cmp(sig@, (#[trigger] before[k]).0) > 0,
                ensures
                    pos <= before.len(),
                    before == Seq::new(
                        classes@.len(),
                        |k: int| (classes@[k].0@, classes@[k].1@),
                    ),
                    before.len() == classes@.len(),
                    sigviews == Seq::new(sigs@.len(), |k: int| sigs@[k]@),
                    i < items@.len(),
                    items@.len() == sigs@.len(),
                    sig@ == sigviews[i as int],
                    forall|k: int| 0 <= k < pos ==> sig_cmp(sig@, (#[trigger] before[k]).0) > 0,
                    found_eq <==> (pos < before.len() && sig_cmp(sig@, before[pos as int].0)
                        == 0),
                    !found_eq && pos < before.len() ==> sig_cmp(sig@, before[pos as int].0) < 0,
                decreases before.len() - pos,
            {
                if pos >= classes.len() {
                    break ;
                }
                let c = sig.cmp_sig(&classes[pos].0);
                if c == 0 {
                    found_eq = true;
                    break ;
                }
                if c < 0 {
                    break ;
                }
                pos = pos + 1;
            }
            proof {
                lemma_q_insert_at(before, sig@, items@[i as int], pos as int);
            }
            if found_eq {
                let mut entry = classes.remove(pos);
                entry.1.push(items[i]);
                classes.insert(pos, entry);
                proof {
                    assert(Seq::new(classes@.len(), |k: int| (classes@[k].0@, classes@[k].1@))
                        =~= before.update(
                        pos as int,
                        (before[pos as int].0, before[pos as int].1.push(items@[i as int])),
                    ));
                }
            } else {
                let mut members: Vec<U> = Vec::new();
                members.push(items[i]);
                classes.insert(pos, (sig.deep_clone(), members));
                proof {
                    assert(Seq::new(classes@.len(), |k: int| (classes@[k].0@, classes@[k].1@))
                        =~= before.insert(pos as int, (sig@, seq![items@[i as int]])));
                }
            }
            i = i + 1;
        }
        let r = Quotient { classes };
        proof {
            assert(q_view(&r) =~= spec_quotient(items@, sigviews, items@.len() as int));
            lemma_spec_quotient_sorted(items@, sigviews, items@.len() as int);
        }
        r
    }
}

impl<U> Quotient<U> {
    /// The number of classes.
    pub fn size(&self) -> (r: usize)
        ensures
            r == self.classes@.len(),
    {
        self.classes.len()
    }
}

/// Classes stand in strictly ascending signature order.
pub open spec fn q_sorted<U>(q: Seq<(SigView, Seq<U>)>) -> bool {
    forall|i: int, j: int|
        0 <= i < j < q.len() ==> sig_cmp((#[trigger] q[i]).0, (#[trigger] q[j]).0) < 0
}

/// Some class of `q` carries exactly this signature.
pub open spec fn q_has_sig<U>(q: Seq<(SigView, Seq<U>)>, sig: SigView) -> bool {
    exists|k: int| 0 <= k < q.len() && (#[trigger] q[k]).0 == sig
}

proof fn lemma_q_insert_sorted<U>(q: Seq<(SigView, Seq<U>)>, sig: SigView, x: U)
    requires
        q_sorted(q),
    ensures
        q_sorted(q_insert(q, sig, x)),
        forall|t: int|
            0 <= t < q_insert(q, sig, x).len() ==> ((#[trigger] q_insert(q, sig, x)[t]).0 == sig
                || q_has_sig(q, q_insert(q, sig, x)[t].0)),
    decreases q.len(),
{
    let r = q_insert(q, sig, x);
    if q.len() == 0 {
        assert(r[0].0 == sig);
    } else if sig_cmp(sig, q[0].0) < 0 {
        assert(r == seq![(sig, seq![x])] + q);
        assert forall|i: int, j: int| 0 <= i < j < r.len() implies sig_cmp(
            (#[trigger] r[i]).0,
            (#[trigger] r[j]).0,
        ) < 0 by {
            if i == 0 {
                if j > 1 {
                    lemma_sig_cmp_trans(sig, q[0].0, q[j - 1].0);
                }
            }
        }
        assert forall|t: int| 0 <= t < r.len() implies ((#[trigger] r[t]).0 == sig || q_has_sig(
            q,
            r[t].0,
        )) by {
            if t > 0 {
                assert(q[t - 1].0 == r[t].0);
            }
        }
    } else if sig_cmp(sig, q[0].0) == 0 {
        assert(r == seq![(q[0].0, q[0].1.push(x))] + q.drop_first());
        assert forall|i: int, j: int| 0 <= i < j < r.len() implies sig_cmp(
            (#[trigger] r[i]).0,
            (#[trigger] r[j]).0,
        ) < 0 by {
            assert(r[i].0 == q[i].0);
            assert(r[j].0 == q[j].0);
        }
        assert forall|t: int| 0 <= t < r.len() implies ((#[trigger] r[t]).0 == sig || q_has_sig(
            q,
            r[t].0,
        )) by {
            assert(r[t].0 == q[t].0);
        }
    } else {
        let d = q.drop_first();
        assert forall|i: int, j: int| 0 <= i < j < d.len() implies sig_cmp(
            (#[trigger] d[i]).0,
            (#[trigger] d[j]).0,
        ) < 0 by {
            assert(d[i] == q[i + 1]);
            assert(d[j] == q[j + 1]);
        }
        lemma_q_insert_sorted(d, sig, x);
        let rd = q_insert(d, sig, x);
        assert(r == seq![q[0]] + rd);
        lemma_sig_cmp_antisym(sig, q[0].0);
        assert forall|i: int, j: int| 0 <= i < j < r.len() implies sig_cmp(
            (#[trigger] r[i]).0,
            (#[trigger] r[j]).0,
        ) < 0 by {
            if i == 0 {
                assert(r[j].0 == rd[j - 1].0);
                if rd[j - 1].0 == sig {
                    assert(sig_cmp(q[0].0, sig) < 0);
                } else {
                    assert(q_has_sig(d, rd[j - 1].0));
                    let k = choose|k: int| 0 <= k < d.len() && (#[trigger] d[k]).0 == rd[j - 1].0;
                    assert(d[k] == q[k + 1]);
                    assert(sig_cmp(q[0].0, q[k + 1].0) < 0);
                }
            } else {
                assert(r[i].0 == rd[i - 1].0);
                assert(r[j].0 == rd[j - 1].0);
            }
        }
        assert forall|t: int| 0 <= t < r.len() implies ((#[trigger] r[t]).0 == sig || q_has_sig(
            q,
            r[t].0,
        )) by {
            if t == 0 {
                assert(q[0].0 == r[0].0);
            } else {
                assert(r[t].0 == rd[t - 1].0);
                if rd[t - 1].0 != sig {
                    let k = choose|k: int| 0 <= k < d.len() && (#[trigger] d[k]).0 == rd[t - 1].0;
                    assert(d[k] == q[k + 1]);
                }
            }
        }
    }
}

/// The quotient's classes always come out in strictly ascending signature
/// order, whatever the elements and signatures.
pub proof fn lemma_spec_quotient_sorted<U>(items: Seq<U>, sigs: Seq<SigView>, n: int)
    ensures
        q_sorted(spec_quotient(items, sigs, n)),
    decreases n,
{
    if n > 0 {
        lemma_spec_quotient_sorted(items, sigs, n - 1);
        lemma_q_insert_sorted(spec_quotient(items, sigs, n - 1), sigs[n - 1], items[n - 1]);
    }
}

/// The member list of the class carrying signature `t`, or empty when no
/// class does.
pub open spec fn members_in<U>(q: Seq<(SigView, Seq<U>)>, t: SigView) -> Seq<U>
    decreases q.len(),
{
    if q.len() == 0 {
        Seq::empty()
    } else if q[0].0 == t {
        q[0].1
    } else {
        members_in(q.drop_first(), t)
    }
}

/// The elements among the first `n` whose signature is `t`, in encounter
/// order.
pub open spec fn elements_with_sig<U>(items: Seq<U>, sigs: Seq<SigView>, t: SigView, n: int) -> Seq<
    U,
>
    decreases n,
{
    if n <= 0 {
        Seq::empty()
    } else if sigs[n - 1] == t {
        elements_with_sig(items, sigs, t, n - 1).push(items[n - 1])
    } else {
        elements_with_sig(items, sigs, t, n - 1)
    }
}

proof fn lemma_q_insert_members<U>(q: Seq<(SigView, Seq<U>)>, sig: SigView, x: U, t: SigView)
    requires
        q_sorted(q),
    ensures
        t == sig ==> members_in(q_insert(q, sig, x), t) == members_in(q, sig).push(x),
        t != sig ==> members_in(q_insert(q, sig, x), t) == members_in(q, t),
    decreases q.len(),
{
    let r = q_insert(q, sig, x);
    if q.len() == 0 {
        assert(r == seq![(sig, seq![x])]);
        if t == sig {
            assert(members_in(r, t) == seq![x]);
            assert(Seq::<U>::empty().push(x) =~= seq![x]);
        } else {
            assert(r.drop_first() =~= Seq::<(SigView, Seq<U>)>::empty());
            assert(members_in(r, t) == members_in(r.drop_first(), t));
            assert(members_in(r.drop_first(), t) == Seq::<U>::empty());
            assert(members_in(q, t) == Seq::<U>::empty());
        }
    } else if sig_cmp(sig, q[0].0) < 0 {
        lemma_sig_cmp_zero(sig, q[0].0);
        assert(r == seq![(sig, seq![x])] + q);
        assert(r.drop_first() =~= q);
        if t == sig {
            assert(members_in(r, t) == seq![x]);
            assert(members_in(q, sig) =~= Seq::<U>::empty()) by {
                lemma_members_absent(q, sig);
            }
            assert(Seq::<U>::empty().push(x) =~= seq![x]);
        }
    } else if sig_cmp(sig, q[0].0) == 0 {
        lemma_sig_cmp_zero(sig, q[0].0);
        assert(q[0].0 == sig);
        assert(r == seq![(q[0].0, q[0].1.push(x))] + q.drop_first());
        assert(r.drop_first() =~= q.drop_first());
        if t == sig {
            assert(members_in(r, t) == q[0].1.push(x));
            assert(members_in(q, sig) == q[0].1);
        }
    } else {
        lemma_sig_cmp_zero(sig, q[0].0);
        assert(q[0].0 != sig);
        assert(r == seq![q[0]] + q_insert(q.drop_first(), sig, x));
        assert(r.drop_first() =~= q_insert(q.drop_first(), sig, x));
        assert forall|a: int, b: int|
            0 <= a < b < q.drop_first().len() implies sig_cmp(
            (#[trigger] q.drop_first()[a]).0,
            (#[trigger] q.drop_first()[b]).0,
        ) < 0 by {
            assert(q.drop_first()[a] == q[a + 1]);
            assert(q.drop_first()[b] == q[b + 1]);
        }
        lemma_q_insert_members(q.drop_first(), sig, x, t);
        assert(r[0] == q[0]);
        if t == q[0].0 {
            assert(members_in(r, t) == q[0].1);
            assert(members_in(q, t) == q[0].1);
        } else {
            assert(members_in(r, t) == members_in(q_insert(q.drop_first(), sig, x), t));
            assert(members_in(q, t) == members_in(q.drop_first(), t));
        }
    }
}

/// A class ordered strictly above every listed signature is absent.
proof fn lemma_members_absent<U>(q: Seq<(SigView, Seq<U>)>, sig: SigView)
    requires
        q_sorted(q),
        q.len() > 0,
        sig_cmp(sig, q[0].0) < 0,
    ensures
        members_in(q, sig) == Seq::<U>::empty(),
    decreases q.len(),
{
    lemma_sig_cmp_zero(sig, q[0].0);
    assert(q[0].0 != sig);
    if q.len() > 1 {
        assert forall|a: int, b: int|
            0 <= a < b < q.drop_first().len() implies sig_cmp(
            (#[trigger] q.drop_first()[a]).0,
            (#[trigger] q.drop_first()[b]).0,
        ) < 0 by {
            assert(q.drop_first()[a] == q[a + 1]);
            assert(q.drop_first()[b] == q[b + 1]);
        }
        assert(q.drop_first()[0] == q[1]);
        lemma_sig_cmp_trans(sig, q[0].0, q[1].0);
        lemma_members_absent(q.drop_first(), sig);
        assert(members_in(q, sig) == members_in(q.drop_first(), sig));
    } else {
        assert(q.drop_first() =~= Seq::<(SigView, Seq<U>)>::empty());
        assert(members_in(q, sig) == members_in(q.drop_first(), sig));
        assert(members_in(q.drop_first(), sig) == Seq::<U>::empty());
    }
}

/// The grouping law: in the quotient of the first `n` elements, the class
/// of any signature holds exactly the elements carrying that signature,
/// in encounter order.
pub proof fn lemma_spec_quotient_members<U>(items: Seq<U>, sigs: Seq<SigView>, n: int, t: SigView)
    ensures
        members_in(spec_quotient(items, sigs, n), t) == elements_with_sig(items, sigs, t, n),
    decreases n,
{
    if n > 0 {
        lemma_spec_quotient_members(items, sigs, n - 1, t);
        lemma_spec_quotient_sorted(items, sigs, n - 1);
        lemma_q_insert_members(
            spec_quotient(items, sigs, n - 1),
            sigs[n - 1],
            items[n - 1],
            t,
        );
    }
}

} // verus!
