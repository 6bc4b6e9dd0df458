//! Minimal canonical JSON-like values for stable hashing.
//!
//! Objects hold their key/value pairs in ascending byte order of the keys;
//! arrays preserve construction order exactly. Floating-point values are
//! deliberately absent: callers scale to an integer instead. The encoding is
//! one-way and hash-oriented; it is not meant to be parsed back.

use vstd::prelude::*;
use crate::decimal::{dec_i64_bytes, dec_u64_bytes, i64_dec_bytes, u64_dec_bytes};
use vstd::utf8::encode_utf8;

verus! {

broadcast use vstd::std_specs::vec::group_vec_axioms;

/// Canonical value, exec form.
pub enum Canon {
    Null,
    Bool(bool),
    I64(i64),
    U64(u64),
    Str(String),
    Arr(Vec<Canon>),
    Obj(Vec<(String, Canon)>),
}

/// Canonical value, mathematical form.
pub enum CanonView {
    Null,
    Bool(bool),
    I64(int),
    U64(int),
    Str(Seq<char>),
    Arr(Seq<CanonView>),
    Obj(Seq<(Seq<char>, CanonView)>),
}

pub open spec fn canon_view(c: Canon) -> CanonView
    decreases c,
{
    match c {
        Canon::Null => CanonView::Null,
        Canon::Bool(b) => CanonView::Bool(b),
        Canon::I64(n) => CanonView::I64(n as int),
        Canon::U64(n) => CanonView::U64(n as int),
        Canon::Str(s) => CanonView::Str(s@),
        Canon::Arr(xs) => CanonView::Arr(canon_view_seq(xs@)),
        Canon::Obj(kvs) => CanonView::Obj(canon_view_pairs(kvs@)),
    }
}

pub open spec fn canon_view_seq(xs: Seq<Canon>) -> Seq<CanonView>
    decreases xs,
{
    if xs.len() == 0 {
        Seq::empty()
    } else {
        seq![canon_view(xs[0])] + canon_view_seq(xs.drop_first())
    }
}

pub open spec fn canon_view_pairs(kvs: Seq<(String, Canon)>) -> Seq<(Seq<char>, CanonView)>
    decreases kvs,
{
    if kvs.len() == 0 {
        Seq::empty()
    } else {
        seq![(kvs[0].0@, canon_view(kvs[0].1))] + canon_view_pairs(kvs.drop_first())
    }
}

pub broadcast proof fn lemma_canon_view_seq_index(xs: Seq<Canon>)
    ensures
        (#[trigger] canon_view_seq(xs)).len() == xs.len(),
        forall|i: int| 0 <= i < xs.len() ==> canon_view_seq(xs)[i] == canon_view(xs[i]),
    decreases xs,
{
    if xs.len() > 0 {
        lemma_canon_view_seq_index(xs.drop_first());
        assert forall|i: int| 0 <= i < xs.len() implies canon_view_seq(xs)[i] == canon_view(
            xs[i],
        ) by {
            if i > 0 {
                assert(xs.drop_first()[i - 1] == xs[i]);
            }
        }
    }
}

pub broadcast proof fn lemma_canon_view_pairs_index(kvs: Seq<(String, Canon)>)
    ensures
        (#[trigger] canon_view_pairs(kvs)).len() == kvs.len(),
        forall|i: int|
            0 <= i < kvs.len() ==> canon_view_pairs(kvs)[i] == (
            kvs[i].0@,
            canon_view(kvs[i].1),
            ),
    decreases kvs,
{
    if kvs.len() > 0 {
        lemma_canon_view_pairs_index(kvs.drop_first());
        assert forall|i: int| 0 <= i < kvs.len() implies canon_view_pairs(kvs)[i] == (
            kvs[i].0@,
            canon_view(kvs[i].1),
        ) by {
            if i > 0 {
                assert(kvs.drop_first()[i - 1] == kvs[i]);
            }
        }
    }
}

impl View for Canon {
    type V = CanonView;

    open spec fn view(&self) -> CanonView {
        canon_view(*self)
    }
}

/// How one byte of a string renders: the escapable bytes are prefixed with a
/// backslash, every other byte is copied as it stands.
pub open spec fn escape_byte(b: u8) -> Seq<u8> {
    if b == 0x5c {
        seq![0x5cu8, 0x5cu8]
    } else if b == 0x22 {
        seq![0x5cu8, 0x22u8]
    } else if b == 0x0a {
        seq![0x5cu8, 0x6eu8]
    } else if b == 0x0d {
        seq![0x5cu8, 0x72u8]
    } else if b == 0x09 {
        seq![0x5cu8, 0x74u8]
    } else {
        seq![b]
    }
}

pub open spec fn escape_bytes(s: Seq<u8>) -> Seq<u8>
    decreases s.len(),
{
    if s.len() == 0 {
        Seq::empty()
    } else {
        escape_byte(s[0]) + escape_bytes(s.drop_first())
    }
}

/// A rendered string: a double quote, the escaped UTF-8 bytes, a double quote.
pub open spec fn encode_str(s: Seq<char>) -> Seq<u8> {
    seq![0x22u8] + escape_bytes(encode_utf8(s)) + seq![0x22u8]
}

/// The canonical byte encoding of a value.
pub open spec fn encode_canon(v: CanonView) -> Seq<u8>
    decreases v,
{
    match v {
        CanonView::Null => seq![0x6eu8, 0x75u8, 0x6cu8, 0x6cu8],
        CanonView::Bool(b) => if b {
            seq![0x74u8, 0x72u8, 0x75u8, 0x65u8]
        } else {
            seq![0x66u8, 0x61u8, 0x6cu8, 0x73u8, 0x65u8]
        },
        CanonView::I64(n) => dec_i64_bytes(n),
        CanonView::U64(n) => dec_u64_bytes(n as nat),
        CanonView::Str(s) => encode_str(s),
        CanonView::Arr(xs) => seq![0x5bu8] + encode_arr_items(xs) + seq![0x5du8],
        CanonView::Obj(kvs) => seq![0x7bu8] + encode_obj_items(kvs) + seq![0x7du8],
    }
}

/// Array elements joined by commas.
pub open spec fn encode_arr_items(xs: Seq<CanonView>) -> Seq<u8>
    decreases xs,
{
    if xs.len() == 0 {
        Seq::empty()
    } else if xs.len() == 1 {
        encode_canon(xs[0])
    } else {
        encode_canon(xs[0]) + seq![0x2cu8] + encode_arr_items(xs.drop_first())
    }
}

/// Object pairs rendered as `"key":value`, joined by commas.
pub open spec fn encode_obj_pair(kv: (Seq<char>, CanonView)) -> Seq<u8>
    decreases kv,
{
    encode_str(kv.0) + seq![0x3au8] + encode_canon(kv.1)
}

pub open spec fn encode_obj_items(kvs: Seq<(Seq<char>, CanonView)>) -> Seq<u8>
    decreases kvs,
{
    if kvs.len() == 0 {
        Seq::empty()
    } else if kvs.len() == 1 {
        encode_obj_pair(kvs[0])
    } else {
        encode_obj_pair(kvs[0]) + seq![0x2cu8] + encode_obj_items(kvs.drop_first())
    }
}

/// Strict lexicographic order on byte sequences.
pub open spec fn bytes_lt(a: Seq<u8>, b: Seq<u8>) -> bool
    decreases a.len(),
{
    if b.len() == 0 {
        false
    } else if a.len() == 0 {
        true
    } else if a[0] != b[0] {
        a[0] < b[0]
    } else {
        bytes_lt(a.drop_first(), b.drop_first())
    }
}

/// Keys are ordered by the bytes of their UTF-8 encoding.
pub open spec fn key_lt(a: Seq<char>, b: Seq<char>) -> bool {
    bytes_lt(encode_utf8(a), encode_utf8(b))
}

/// Well-formed canonical value: object keys strictly ascending everywhere.
pub open spec fn wf_canon(v: CanonView) -> bool
    decreases v,
{
    match v {
        CanonView::Arr(xs) => forall|i: int| 0 <= i < xs.len() ==> wf_canon(#[trigger] xs[i]),
        CanonView::Obj(kvs) => {
            &&& forall|i: int|
                0 <= i < kvs.len() ==> wf_canon(#[trigger] kvs[i].1)
            &&& forall|i: int, j: int|
                0 <= i < j < kvs.len() ==> key_lt(#[trigger] kvs[i].0, #[trigger] kvs[j].0)
        },
        _ => true,
    }
}

fn escape_into(out: &mut Vec<u8>, bytes: &[u8])
    ensures
        final(out)@ == old(out)@ + escape_bytes(bytes@),
{
    let ghost orig = out@;
    let mut i: usize = 0;
    while i < bytes.len()
        invariant
            i <= bytes@.len(),
            out@ == orig + escape_bytes(bytes@.take(i as int)),
        decreases bytes@.len() - i,
    {
        let b = bytes[i];
        if b == 0x5c {
            out.push(0x5c);
            out.push(0x5c);
        } else if b == 0x22 {
            out.push(0x5c);
            out.push(0x22);
        } else if b == 0x0a {
            out.push(0x5c);
            out.push(0x6e);
        } else if b == 0x0d {
            out.push(0x5c);
            out.push(0x72);
        } else if b == 0x09 {
            out.push(0x5c);
            out.push(0x74);
        } else {
            out.push(b);
        }
        proof {
            lemma_escape_bytes_snoc(bytes@.take(i as int), bytes@[i as int]);
            assert(bytes@.take(i + 1 as int) =~= bytes@.take(i as int).push(bytes@[i as int]));
            assert(out@ =~= orig + escape_bytes(bytes@.take(i + 1 as int)));
        }
        i = i + 1;
    }
    proof {
        assert(bytes@.take(bytes@.len() as int) =~= bytes@);
    }
}

proof fn lemma_escape_bytes_snoc(s: Seq<u8>, b: u8)
    ensures
        escape_bytes(s.push(b)) == escape_bytes(s) + escape_byte(b),
    decreases s.len(),
{
    if s.len() == 0 {
        assert(s.push(b).drop_first() =~= Seq::<u8>::empty());
        assert(s.push(b)[0] == b);
        assert(escape_bytes(s.push(b)) =~= escape_byte(b) + escape_bytes(Seq::<u8>::empty()));
        assert(escape_bytes(s.push(b)) =~= escape_byte(b));
        assert(escape_bytes(s) + escape_byte(b) =~= escape_byte(b));
    } else {
        assert(s.push(b).drop_first() =~= s.drop_first().push(b));
        assert(s.push(b)[0] == s[0]);
        lemma_escape_bytes_snoc(s.drop_first(), b);
        assert(escape_bytes(s.push(b)) =~= escape_bytes(s) + escape_byte(b));
    }
}

fn encode_str_into(out: &mut Vec<u8>, s: &str)
    ensures
        final(out)@ == old(out)@ + encode_str(s@),
{
    let ghost orig = out@;
    out.push(0x22);
    let bytes: &[u8] = s.as_bytes();
    escape_into(out, bytes);
    out.push(0x22);
    proof {
        assert(out@ =~= orig + encode_str(s@));
    }
}

/// Writes the canonical encoding of `v` after the bytes already in `out`.
fn write_canon(out: &mut Vec<u8>, v: &Canon)
    ensures
        final(out)@ == old(out)@ + encode_canon(v@),
    decreases v,
{
    match v {
        Canon::Null => {
            let ghost orig = out@;
            out.push(0x6e);
            out.push(0x75);
            out.push(0x6c);
            out.push(0x6c);
            proof {
                assert(out@ =~= orig + encode_canon(v@));
            }
        },
        Canon::Bool(b) => {
            let ghost orig = out@;
            if *b {
                out.push(0x74);
                out.push(0x72);
                out.push(0x75);
                out.push(0x65);
            } else {
                out.push(0x66);
                out.push(0x61);
                out.push(0x6c);
                out.push(0x73);
                out.push(0x65);
            }
            proof {
                assert(out@ =~= orig + encode_canon(v@));
            }
        },
        Canon::I64(n) => {
            let mut digits = i64_dec_bytes(*n);
            out.append(&mut digits);
        },
        Canon::U64(n) => {
            let mut digits = u64_dec_bytes(*n);
            out.append(&mut digits);
        },
        Canon::Str(s) => {
            encode_str_into(out, s.as_str());
        },
        Canon::Arr(xs) => {
            let ghost orig = out@;
            let ghost xsv = canon_view_seq(xs@);
            proof {
                lemma_canon_view_seq_index(xs@);
            }
            out.push(0x5b);
            let mut i: usize = 0;
            while i < xs.len()
                invariant
                    *v == Canon::Arr(*xs),
                    i <= xs@.len(),
                    xsv == canon_view_seq(xs@),
                    xsv.len() == xs@.len(),
                    forall|k: int| 0 <= k < xs@.len() ==> xsv[k] == canon_view(xs@[k]),
                    out@ == orig + seq![0x5bu8] + encode_prefix(xsv, i as int),
                decreases xs@.len() - i,
            {
                if i != 0 {
                    out.push(0x2c);
                }
                proof {
                    assert(decreases_to!(*v => v->Arr_0));
                    assert(decreases_to!(*xs => xs@[i as int]));
                }
                write_canon(out, &xs[i]);
                proof {
                    lemma_encode_prefix_step(xsv, i as int);
                }
                i = i + 1;
            }
            out.push(0x5d);
            proof {
                lemma_encode_prefix_all(xsv);
                assert(out@ =~= orig + encode_canon(v@));
            }
        },
        Canon::Obj(kvs) => {
            let ghost orig = out@;
            let ghost kvsv = canon_view_pairs(kvs@);
            proof {
                lemma_canon_view_pairs_index(kvs@);
            }
            out.push(0x7b);
            let mut i: usize = 0;
            while i < kvs.len()
                invariant
                    *v == Canon::Obj(*kvs),
                    i <= kvs@.len(),
                    kvsv == canon_view_pairs(kvs@),
                    kvsv.len() == kvs@.len(),
                    forall|k: int|
                        0 <= k < kvs@.len() ==> kvsv[k] == (kvs@[k].0@, canon_view(kvs@[k].1)),
                    out@ == orig + seq![0x7bu8] + encode_obj_prefix(kvsv, i as int),
                decreases kvs@.len() - i,
            {
                if i != 0 {
                    out.push(0x2c);
                }
                encode_str_into(out, kvs[i].0.as_str());
                out.push(0x3a);
                proof {
                    assert(decreases_to!(*v => v->Obj_0));
                    assert(decreases_to!(*kvs => kvs@[i as int]));
                    assert(decreases_to!(kvs@[i as int] => kvs@[i as int].1));
                }
                write_canon(out, &kvs[i].1);
                proof {
                    lemma_encode_obj_prefix_step(kvsv, i as int);
                    assert(out@ =~= orig + seq![0x7bu8] + encode_obj_prefix(kvsv, i + 1 as int));
                }
                i = i + 1;
            }
            out.push(0x7d);
            proof {
                lemma_encode_obj_prefix_all(kvsv);
                assert(out@ =~= orig + encode_canon(v@));
            }
        },
    }
}

/// The comma-joined encoding of the first `n` array elements.
pub open spec fn encode_prefix(xs: Seq<CanonView>, n: int) -> Seq<u8>
    decreases n,
{
    if n <= 0 {
        Seq::empty()
    } else if n == 1 {
        encode_canon(xs[0])
    } else {
        encode_prefix(xs, n - 1) + seq![0x2cu8] + encode_canon(xs[n - 1])
    }
}

pub open spec fn encode_obj_prefix(kvs: Seq<(Seq<char>, CanonView)>, n: int) -> Seq<u8>
    decreases n,
{
    if n <= 0 {
        Seq::empty()
    } else if n == 1 {
        encode_obj_pair(kvs[0])
    } else {
        encode_obj_prefix(kvs, n - 1) + seq![0x2cu8] + encode_obj_pair(kvs[n - 1])
    }
}

proof fn lemma_encode_prefix_step(xs: Seq<CanonView>, i: int)
    requires
        0 <= i < xs.len(),
    ensures
        i == 0 ==> encode_prefix(xs, 1) == encode_prefix(xs, 0) + encode_canon(xs[0]),
        i > 0 ==> encode_prefix(xs, i + 1) == encode_prefix(xs, i) + seq![0x2cu8] + encode_canon(
            xs[i],
        ),
{
    if i == 0 {
        assert(encode_prefix(xs, 1) =~= encode_prefix(xs, 0) + encode_canon(xs[0]));
    }
}

proof fn lemma_encode_obj_prefix_step(kvs: Seq<(Seq<char>, CanonView)>, i: int)
    requires
        0 <= i < kvs.len(),
    ensures
        i == 0 ==> encode_obj_prefix(kvs, 1) == encode_obj_prefix(kvs, 0) + encode_obj_pair(
            kvs[0],
        ),
        i > 0 ==> encode_obj_prefix(kvs, i + 1) == encode_obj_prefix(kvs, i) + seq![0x2cu8]
            + encode_obj_pair(kvs[i]),
{
    if i == 0 {
        assert(encode_obj_prefix(kvs, 1) =~= encode_obj_prefix(kvs, 0) + encode_obj_pair(kvs[0]));
    }
}

proof fn lemma_encode_prefix_all(xs: Seq<CanonView>)
    ensures
        encode_prefix(xs, xs.len() as int) == encode_arr_items(xs),
    decreases xs.len(),
{
    if xs.len() > 1 {
        lemma_encode_prefix_all(xs.drop_first());
        lemma_encode_prefix_shift(xs, xs.len() as int);
        assert(encode_prefix(xs, xs.len() as int) =~= encode_arr_items(xs));
    } else if xs.len() == 1 {
        assert(encode_prefix(xs, 1) =~= encode_arr_items(xs));
    }
}

proof fn lemma_encode_prefix_shift(xs: Seq<CanonView>, n: int)
    requires
        2 <= n <= xs.len(),
    ensures
        encode_prefix(xs, n) == encode_canon(xs[0]) + seq![0x2cu8] + encode_prefix(
            xs.drop_first(),
            n - 1,
        ),
    decreases n,
{
    if n == 2 {
        assert(xs.drop_first()[0] == xs[1]);
        assert(encode_prefix(xs, 1) == encode_canon(xs[0]));
        assert(encode_prefix(xs.drop_first(), 1) == encode_canon(xs[1]));
        assert(encode_prefix(xs, 2) =~= encode_canon(xs[0]) + seq![0x2cu8] + encode_prefix(
            xs.drop_first(),
            1,
        ));
    } else {
        lemma_encode_prefix_shift(xs, n - 1);
        assert(xs.drop_first()[n - 2] == xs[n - 1]);
        assert(encode_prefix(xs, n) =~= encode_canon(xs[0]) + seq![0x2cu8] + encode_prefix(
            xs.drop_first(),
            n - 1,
        ));
    }
}

proof fn lemma_encode_obj_prefix_all(kvs: Seq<(Seq<char>, CanonView)>)
    ensures
        encode_obj_prefix(kvs, kvs.len() as int) == encode_obj_items(kvs),
    decreases kvs.len(),
{
    if kvs.len() > 1 {
        lemma_encode_obj_prefix_all(kvs.drop_first());
        lemma_encode_obj_prefix_shift(kvs, kvs.len() as int);
        assert(encode_obj_prefix(kvs, kvs.len() as int) =~= encode_obj_items(kvs));
    } else if kvs.len() == 1 {
        assert(encode_obj_prefix(kvs, 1) =~= encode_obj_items(kvs));
    }
}

proof fn lemma_encode_obj_prefix_shift(kvs: Seq<(Seq<char>, CanonView)>, n: int)
    requires
        2 <= n <= kvs.len(),
    ensures
        encode_obj_prefix(kvs, n) == encode_obj_pair(kvs[0]) + seq![0x2cu8] + encode_obj_prefix(
            kvs.drop_first(),
            n - 1,
        ),
    decreases n,
{
    if n == 2 {
        assert(kvs.drop_first()[0] == kvs[1]);
        assert(encode_obj_prefix(kvs, 1) == encode_obj_pair(kvs[0]));
        assert(encode_obj_prefix(kvs.drop_first(), 1) == encode_obj_pair(kvs[1]));
        assert(encode_obj_prefix(kvs, 2) =~= encode_obj_pair(kvs[0]) + seq![0x2cu8]
            + encode_obj_prefix(kvs.drop_first(), 1));
    } else {
        lemma_encode_obj_prefix_shift(kvs, n - 1);
        assert(kvs.drop_first()[n - 2] == kvs[n - 1]);
        assert(encode_obj_prefix(kvs, n) =~= encode_obj_pair(kvs[0]) + seq![0x2cu8]
            + encode_obj_prefix(kvs.drop_first(), n - 1));
    }
}

impl Canon {
    /// A structurally identical copy of the value.
    pub fn deep_clone(&self) -> (r: Canon)
        ensures
            r@ == self@,
        decreases self,
    {
        match self {
            Canon::Null => Canon::Null,
            Canon::Bool(b) => Canon::Bool(*b),
            Canon::I64(n) => Canon::I64(*n),
            Canon::U64(n) => Canon::U64(*n),
            Canon::Str(s) => Canon::Str(s.clone()),
            Canon::Arr(xs) => {
                let mut copy: Vec<Canon> = Vec::new();
                let mut i: usize = 0;
                while i < xs.len()
                    invariant
                        *self == Canon::Arr(*xs),
                        i <= xs@.len(),
                        copy@.len() == i,
                        forall|k: int| 0 <= k < i ==> copy@[k]@ == xs@[k]@,
                    decreases xs@.len() - i,
                {
                    proof {
                        assert(decreases_to!(*self => self->Arr_0));
                        assert(decreases_to!(*xs => xs@[i as int]));
                    }
                    copy.push(xs[i].deep_clone());
                    i = i + 1;
                }
                let r = Canon::Arr(copy);
                proof {
                    lemma_canon_view_seq_index(copy@);
                    lemma_canon_view_seq_index(xs@);
                    assert(canon_view_seq(copy@) =~= canon_view_seq(xs@));
                }
                r
            },
            Canon::Obj(kvs) => {
                let mut copy: Vec<(String, Canon)> = Vec::new();
                let mut i: usize = 0;
                while i < kvs.len()
                    invariant
                        *self == Canon::Obj(*kvs),
                        i <= kvs@.len(),
                        copy@.len() == i,
                        forall|k: int|
                            0 <= k < i ==> copy@[k].0@ == kvs@[k].0@ && copy@[k].1@ == kvs@[k].1@,
                    decreases kvs@.len() - i,
                {
                    proof {
                        assert(decreases_to!(*self => self->Obj_0));
                        assert(decreases_to!(*kvs => kvs@[i as int]));
                        assert(decreases_to!(kvs@[i as int] => kvs@[i as int].1));
                    }
                    copy.push((kvs[i].0.clone(), kvs[i].1.deep_clone()));
                    i = i + 1;
                }
                let r = Canon::Obj(copy);
                proof {
                    lemma_canon_view_pairs_index(copy@);
                    lemma_canon_view_pairs_index(kvs@);
                    assert(canon_view_pairs(copy@) =~= canon_view_pairs(kvs@));
                }
                r
            },
        }
    }
}

/// The canonical byte serialization of `v`.
pub fn canon_bytes(v: &Canon) -> (r: Vec<u8>)
    ensures
        r@ == encode_canon(v@),
{
    let mut out: Vec<u8> = Vec::new();
    write_canon(&mut out, v);
    out
}

} // verus!
