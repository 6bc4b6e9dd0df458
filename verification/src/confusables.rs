//! The minimal confusables table: visually confusable counterparts of
//! selected ASCII letters, and its kernel certificate.

use vstd::prelude::*;
use vstd::string::StringExecFns;
use crate::canon::{canon_view, canon_view_pairs, canon_view_seq, lemma_canon_view_pairs_index,
    lemma_canon_view_seq_index, Canon, CanonView};
use crate::cert::KernelCert;
use crate::digest::sha256_of;
use crate::canon::encode_canon;

verus! {

/// The fixed table, sorted ascending by source symbol: each ASCII letter
/// beside its confusable counterpart.
pub open spec fn confusables_pairs() -> Seq<(Seq<char>, Seq<char>)> {
    seq![
        ("A"@, "\u{0391}"@),
        ("B"@, "\u{0392}"@),
        ("E"@, "\u{0395}"@),
        ("I"@, "\u{0399}"@),
        ("K"@, "\u{039a}"@),
        ("M"@, "\u{039c}"@),
        ("N"@, "\u{039d}"@),
        ("O"@, "\u{039f}"@),
        ("P"@, "\u{03a1}"@),
        ("T"@, "\u{03a4}"@),
        ("X"@, "\u{03a7}"@),
        ("Y"@, "\u{03a5}"@),
        ("a"@, "\u{0430}"@),
        ("c"@, "\u{0441}"@),
        ("e"@, "\u{0435}"@),
        ("o"@, "\u{043e}"@),
        ("p"@, "\u{0440}"@),
        ("x"@, "\u{0445}"@),
        ("y"@, "\u{0443}"@),
    ]
}

/// The table as key/value pairs in ascending key order.
pub fn confusables_min_table() -> (r: Vec<(String, String)>)
    ensures
        r@.len() == confusables_pairs().len(),
        forall|i: int|
            0 <= i < r@.len() ==> ((#[trigger] r@[i]).0@, r@[i].1@) == confusables_pairs()[i],
{
    let mut m: Vec<(String, String)> = Vec::new();
    m.push((String::from_str("A"), String::from_str("\u{0391}")));
    m.push((String::from_str("B"), String::from_str("\u{0392}")));
    m.push((String::from_str("E"), String::from_str("\u{0395}")));
    m.push((String::from_str("I"), String::from_str("\u{0399}")));
    m.push((String::from_str("K"), String::from_str("\u{039a}")));
    m.push((String::from_str("M"), String::from_str("\u{039c}")));
    m.push((String::from_str("N"), String::from_str("\u{039d}")));
    m.push((String::from_str("O"), String::from_str("\u{039f}")));
    m.push((String::from_str("P"), String::from_str("\u{03a1}")));
    m.push((String::from_str("T"), String::from_str("\u{03a4}")));
    m.push((String::from_str("X"), String::from_str("\u{03a7}")));
    m.push((String::from_str("Y"), String::from_str("\u{03a5}")));
    m.push((String::from_str("a"), String::from_str("\u{0430}")));
    m.push((String::from_str("c"), String::from_str("\u{0441}")));
    m.push((String::from_str("e"), String::from_str("\u{0435}")));
    m.push((String::from_str("o"), String::from_str("\u{043e}")));
    m.push((String::from_str("p"), String::from_str("\u{0440}")));
    m.push((String::from_str("x"), String::from_str("\u{0445}")));
    m.push((String::from_str("y"), String::from_str("\u{0443}")));
    proof {
        assert(Seq::new(m@.len(), |i: int| (m@[i].0@, m@[i].1@)) =~= confusables_pairs());
        assert forall|i: int| 0 <= i < m@.len() implies ((#[trigger] m@[i]).0@, m@[i].1@)
            == confusables_pairs()[i] by {
            assert(Seq::new(m@.len(), |k: int| (m@[k].0@, m@[k].1@))[i] == (m@[i].0@, m@[i].1@));
        }
    }
    m
}

/// The canonical payload of the confusables certificate: the pair objects
/// in table order, then the table size, keys ascending.
pub open spec fn confusables_payload() -> CanonView {
    CanonView::Obj(
        seq![
            (
                "pairs"@,
                CanonView::Arr(
                    Seq::new(
                        confusables_pairs().len(),
                        |i: int|
                            CanonView::Obj(
                                seq![
                                    ("dst"@, CanonView::Str(confusables_pairs()[i].1)),
                                    ("src"@, CanonView::Str(confusables_pairs()[i].0)),
                                ],
                            ),
                    ),
                ),
            ),
            ("table_size"@, CanonView::U64(confusables_pairs().len() as int)),
        ],
    )
}

/// The kernel certificate over the confusables table.
pub fn confusables_kernel_cert() -> (r: KernelCert)
    ensures
        r.kernel_name@ == "asc7_confusables"@,
        r.kernel_version@ == "1.0.0"@,
        r.payload@ == confusables_payload(),
        r.kernel_hash.0@ == sha256_of(encode_canon(confusables_payload())),
{
    let table = confusables_min_table();
    let mut pairs: Vec<Canon> = Vec::new();
    let mut i: usize = 0;
    while i < table.len()
        invariant
            i <= table@.len(),
            pairs@.len() == i,
            table@.len() == confusables_pairs().len(),
            forall|k: int|
                0 <= k < table@.len() ==> ((#[trigger] table@[k]).0@, table@[k].1@)
                    == confusables_pairs()[k],
            forall|k: int|
                0 <= k < i ==> canon_view(#[trigger] pairs@[k]) == CanonView::Obj(
                    seq![
                        ("dst"@, CanonView::Str(confusables_pairs()[k].1)),
                        ("src"@, CanonView::Str(confusables_pairs()[k].0)),
                    ],
                ),
        decreases table@.len() - i,
    {
        let mut obj: Vec<(String, Canon)> = Vec::new();
        obj.push((String::from_str("dst"), Canon::Str(table[i].1.clone())));
        obj.push((String::from_str("src"), Canon::Str(table[i].0.clone())));
        let c = Canon::Obj(obj);
        proof {
            lemma_canon_view_pairs_index(obj@);
            assert(canon_view_pairs(obj@) =~= seq![
                ("dst"@, CanonView::Str(confusables_pairs()[i as int].1)),
                ("src"@, CanonView::Str(confusables_pairs()[i as int].0)),
            ]);
        }
        pairs.push(c);
        i = i + 1;
    }
    let mut obj: Vec<(String, Canon)> = Vec::new();
    let table_len: u64 = table.len() as u64;
    obj.push((String::from_str("pairs"), Canon::Arr(pairs)));
    obj.push((String::from_str("table_size"), Canon::U64(table_len)));
    let payload = Canon::Obj(obj);
    proof {
        lemma_canon_view_seq_index(obj@[0].1->Arr_0@);
        lemma_canon_view_pairs_index(obj@);
        assert(canon_view_seq(obj@[0].1->Arr_0@) =~= confusables_payload()->Obj_0[0].1->Arr_0);
        assert(canon_view_pairs(obj@) =~= confusables_payload()->Obj_0);
    }
    KernelCert::new("asc7_confusables", "1.0.0", payload)
}

} // verus!
