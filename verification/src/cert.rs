//! Kernel certificates and certificate chains.
//!
//! A kernel certificate is a named, versioned, hashed canonical payload; its
//! hash covers the payload alone, name and version are uncovered metadata. A
//! chain hashes the ordered list of (name, hash) pairs, certifying provenance
//! order.

use vstd::prelude::*;
use vstd::string::StringExecFns;
use crate::canon::{
    canon_bytes, canon_view, canon_view_pairs, canon_view_seq, encode_arr_items,
    encode_canon, encode_obj_items, encode_obj_pair, encode_str, escape_bytes,
    lemma_canon_view_pairs_index, lemma_canon_view_seq_index, Canon, CanonView,
};
use vstd::utf8::{encode_utf8, is_ascii_chars};
use crate::digest::{hex_of, sha256_bytes, sha256_hex, sha256_of, Sha256Digest};

verus! {

/// A named, versioned, hashed canonical payload. The hash is computed once
/// at construction and depends only on the payload.
pub struct KernelCert {
    pub kernel_name: String,
    pub kernel_version: String,
    pub payload: Canon,
    pub kernel_hash: Sha256Digest,
}

/// The canonical object form of a certificate, keys in ascending byte order.
pub open spec fn kernel_cert_canon(
    name: Seq<char>,
    version: Seq<char>,
    payload: CanonView,
    hash: Seq<u8>,
) -> CanonView {
    CanonView::Obj(
        seq![
            ("kernel_hash"@, CanonView::Str(hex_of(hash))),
            ("kernel_name"@, CanonView::Str(name)),
            ("kernel_version"@, CanonView::Str(version)),
            ("payload"@, payload),
        ],
    )
}

impl KernelCert {
    /// Builds the certificate: the hash is the digest of the canonical
    /// encoding of the payload.
    pub fn new(kernel_name: &str, kernel_version: &str, payload: Canon) -> (r: Self)
        ensures
            r.kernel_name@ == kernel_name@,
            r.kernel_version@ == kernel_version@,
            r.payload == payload,
            r.kernel_hash.0@ == sha256_of(encode_canon(payload@)),
    {
        let bytes = canon_bytes(&payload);
        let kernel_hash = sha256_bytes(bytes.as_slice());
        KernelCert {
            kernel_name: String::from_str(kernel_name),
            kernel_version: String::from_str(kernel_version),
            payload,
            kernel_hash,
        }
    }

    pub fn kernel_hash_hex(&self) -> (r: String)
        ensures
            r@ == hex_of(self.kernel_hash.0@),
    {
        sha256_hex(self.kernel_hash)
    }

    /// The certificate itself as a canonical object.
    pub fn to_canon(&self) -> (r: Canon)
        ensures
            r@ == kernel_cert_canon(
                self.kernel_name@,
                self.kernel_version@,
                self.payload@,
                self.kernel_hash.0@,
            ),
    {
        let mut obj: Vec<(String, Canon)> = Vec::new();
        obj.push((String::from_str("kernel_hash"), Canon::Str(self.kernel_hash_hex())));
        obj.push((String::from_str("kernel_name"), Canon::Str(self.kernel_name.clone())));
        obj.push((String::from_str("kernel_version"), Canon::Str(self.kernel_version.clone())));
        obj.push((String::from_str("payload"), self.payload.deep_clone()));
        let r = Canon::Obj(obj);
        proof {
            lemma_canon_view_pairs_index(obj@);
            assert(canon_view_pairs(obj@) =~= kernel_cert_canon(
                self.kernel_name@,
                self.kernel_version@,
                self.payload@,
                self.kernel_hash.0@,
            )->Obj_0);
        }
        r
    }
}

/// One link of a chain: a certificate's name and its hash in hex.
#[derive(Clone, Debug)]
pub struct CertItem {
    pub name: String,
    pub hash_hex: String,
}

/// An ordered list of certificate links and the hash over the whole list.
#[derive(Clone, Debug)]
pub struct CertChain {
    pub items: Vec<CertItem>,
    pub chain_hash_hex: String,
}

/// The (name, hash) pairs of a chain's items.
pub open spec fn chain_pairs(items: Seq<CertItem>) -> Seq<(Seq<char>, Seq<char>)> {
    Seq::new(items.len(), |i: int| (items[i].name@, items[i].hash_hex@))
}

/// The canonical object of one link, keys in ascending byte order.
pub open spec fn chain_item_canon(name: Seq<char>, hash: Seq<char>) -> CanonView {
    CanonView::Obj(seq![("hash"@, CanonView::Str(hash)), ("name"@, CanonView::Str(name))])
}

/// The canonical array of the whole chain, in input order.
pub open spec fn chain_canon(pairs: Seq<(Seq<char>, Seq<char>)>) -> CanonView {
    CanonView::Arr(Seq::new(pairs.len(), |i: int| chain_item_canon(pairs[i].0, pairs[i].1)))
}

/// The bytes the chain hash is computed over.
pub open spec fn chain_bytes(items: Seq<CertItem>) -> Seq<u8> {
    encode_canon(chain_canon(chain_pairs(items)))
}

/// The chain hash as lowercase hex characters.
pub open spec fn chain_hash_chars(items: Seq<CertItem>) -> Seq<char> {
    hex_of(sha256_of(chain_bytes(items)))
}

/// Hash over the ordered (name, hash) list: no deduplication, no reordering.
pub fn cert_chain_hash(items: &[CertItem]) -> (r: String)
    ensures
        r@ == chain_hash_chars(items@),
{
    let mut arr: Vec<Canon> = Vec::new();
    let mut i: usize = 0;
    while i < items.len()
        invariant
            i <= items@.len(),
            arr@.len() == i,
            forall|k: int|
                0 <= k < i ==> canon_view(#[trigger] arr@[k]) == chain_item_canon(
                    items@[k].name@,
                    items@[k].hash_hex@,
                ),
        decreases items@.len() - i,
    {
        let mut obj: Vec<(String, Canon)> = Vec::new();
        obj.push((String::from_str("hash"), Canon::Str(items[i].hash_hex.clone())));
        obj.push((String::from_str("name"), Canon::Str(items[i].name.clone())));
        let c = Canon::Obj(obj);
        proof {
            lemma_canon_view_pairs_index(obj@);
            assert(canon_view_pairs(obj@) =~= chain_item_canon(
                items@[i as int].name@,
                items@[i as int].hash_hex@,
            )->Obj_0);
        }
        arr.push(c);
        i = i + 1;
    }
    let a = Canon::Arr(arr);
    proof {
        lemma_canon_view_seq_index(arr@);
        assert(canon_view_seq(arr@) =~= chain_canon(chain_pairs(items@))->Arr_0);
    }
    let bytes = canon_bytes(&a);
    let d = sha256_bytes(bytes.as_slice());
    sha256_hex(d)
}

impl CertChain {
    /// Builds the chain over the items as given.
    pub fn build(items: Vec<CertItem>) -> (r: Self)
        ensures
            r.items@ == items@,
            r.chain_hash_hex@ == chain_hash_chars(items@),
    {
        let chain_hash_hex = cert_chain_hash(items.as_slice());
        CertChain { items, chain_hash_hex }
    }
}

/// Identical ordered (name, hash) inputs always reproduce the identical
/// chain hash.
pub proof fn lemma_chain_hash_deterministic(a: Seq<CertItem>, b: Seq<CertItem>)
    requires
        chain_pairs(a) == chain_pairs(b),
    ensures
        chain_hash_chars(a) == chain_hash_chars(b),
{
}

/// A character that a canonical string renders as exactly its own byte:
/// printable ASCII that is neither a quote nor a backslash.
pub open spec fn clean_char(c: char) -> bool {
    0x20 <= c as int && (c as int) < 0x7f && (c as int) != 0x22 && (c as int) != 0x5c
}

pub open spec fn clean_chars(s: Seq<char>) -> bool {
    forall|i: int| 0 <= i < s.len() ==> clean_char(#[trigger] s[i])
}

/// The bytes of an ASCII character sequence, one per character.
pub open spec fn ascii_bytes(s: Seq<char>) -> Seq<u8> {
    Seq::new(s.len(), |i: int| s[i] as u8)
}

proof fn lemma_escape_clean(b: Seq<u8>)
    requires
        forall|i: int|
            0 <= i < b.len() ==> (#[trigger] b[i]) != 0x5c && b[i] != 0x22 && b[i] != 0x0a
                && b[i] != 0x0d && b[i] != 0x09,
    ensures
        escape_bytes(b) == b,
    decreases b.len(),
{
    if b.len() > 0 {
        assert forall|i: int|
            0 <= i < b.drop_first().len() implies (#[trigger] b.drop_first()[i]) != 0x5c
                && b.drop_first()[i] != 0x22 && b.drop_first()[i] != 0x0a && b.drop_first()[i]
                != 0x0d && b.drop_first()[i] != 0x09 by {
            assert(b.drop_first()[i] == b[i + 1]);
        }
        lemma_escape_clean(b.drop_first());
        assert(escape_bytes(b) =~= b);
    }
}

proof fn lemma_encode_str_clean(s: Seq<char>)
    requires
        clean_chars(s),
    ensures
        encode_str(s) == seq![0x22u8] + ascii_bytes(s) + seq![0x22u8],
        encode_str(s).len() == s.len() + 2,
{
    assert(is_ascii_chars(s)) by {
        assert forall|i: int| 0 <= i < s.len() implies '\0' <= #[trigger] s[i] <= '\u{7f}' by {
            assert(clean_char(s[i]));
        }
    }
    vstd::utf8::is_ascii_chars_encode_utf8(s);
    assert(encode_utf8(s) =~= ascii_bytes(s));
    assert forall|i: int|
        0 <= i < ascii_bytes(s).len() implies (#[trigger] ascii_bytes(s)[i]) != 0x5c
            && ascii_bytes(s)[i] != 0x22 && ascii_bytes(s)[i] != 0x0a && ascii_bytes(s)[i] != 0x0d
            && ascii_bytes(s)[i] != 0x09 by {
        assert(clean_char(s[i]));
        assert(s[i] as u8 as int == s[i] as int);
    }
    lemma_escape_clean(ascii_bytes(s));
}

proof fn lemma_ascii_bytes_inj(s1: Seq<char>, s2: Seq<char>)
    requires
        clean_chars(s1),
        clean_chars(s2),
        ascii_bytes(s1) == ascii_bytes(s2),
    ensures
        s1 == s2,
{
    assert(is_ascii_chars(s1)) by {
        assert forall|i: int| 0 <= i < s1.len() implies '\0' <= #[trigger] s1[i] <= '\u{7f}' by {
            assert(clean_char(s1[i]));
        }
    }
    assert(is_ascii_chars(s2)) by {
        assert forall|i: int| 0 <= i < s2.len() implies '\0' <= #[trigger] s2[i] <= '\u{7f}' by {
            assert(clean_char(s2[i]));
        }
    }
    vstd::utf8::is_ascii_chars_encode_utf8(s1);
    vstd::utf8::is_ascii_chars_encode_utf8(s2);
    assert(encode_utf8(s1) =~= ascii_bytes(s1));
    assert(encode_utf8(s2) =~= ascii_bytes(s2));
    vstd::utf8::encode_utf8_decode_utf8(s1);
    vstd::utf8::encode_utf8_decode_utf8(s2);
}

/// The bytes of one rendered chain link.
pub open spec fn item_bytes(name: Seq<char>, hash: Seq<char>) -> Seq<u8> {
    seq![0x7bu8] + encode_str("hash"@) + seq![0x3au8] + encode_str(hash) + seq![0x2cu8]
        + encode_str("name"@) + seq![0x3au8] + encode_str(name) + seq![0x7du8]
}

proof fn lemma_item_bytes(name: Seq<char>, hash: Seq<char>)
    ensures
        encode_canon(chain_item_canon(name, hash)) == item_bytes(name, hash),
{
    let kvs = chain_item_canon(name, hash)->Obj_0;
    assert(kvs.len() == 2);
    assert(kvs.drop_first() =~= seq![("name"@, CanonView::Str(name))]);
    assert(encode_obj_items(kvs.drop_first()) == encode_obj_pair(kvs[1]));
    assert(encode_obj_items(kvs) == encode_obj_pair(kvs[0]) + seq![0x2cu8] + encode_obj_pair(
        kvs[1],
    ));
    assert(encode_canon(chain_item_canon(name, hash)) =~= item_bytes(name, hash));
}

proof fn lemma_concat_inj(a1: Seq<u8>, b1: Seq<u8>, a2: Seq<u8>, b2: Seq<u8>)
    requires
        a1.len() == a2.len(),
        a1 + b1 == a2 + b2,
    ensures
        a1 == a2,
        b1 == b2,
{
    assert(a1 =~= (a1 + b1).take(a1.len() as int));
    assert(a2 =~= (a2 + b2).take(a2.len() as int));
    assert(b1 =~= (a1 + b1).skip(a1.len() as int));
    assert(b2 =~= (a2 + b2).skip(a2.len() as int));
}

proof fn lemma_item_bytes_differ(name: Seq<char>, h1: Seq<char>, h2: Seq<char>)
    requires
        clean_chars(h1),
        clean_chars(h2),
        h1.len() == h2.len(),
        h1 != h2,
    ensures
        item_bytes(name, h1) != item_bytes(name, h2),
        item_bytes(name, h1).len() == item_bytes(name, h2).len(),
{
    lemma_encode_str_clean(h1);
    lemma_encode_str_clean(h2);
    if item_bytes(name, h1) == item_bytes(name, h2) {
        let pre1 = seq![0x7bu8] + encode_str("hash"@) + seq![0x3au8];
        let post1 = seq![0x2cu8] + encode_str("name"@) + seq![0x3au8] + encode_str(name) + seq![
            0x7du8,
        ];
        assert(item_bytes(name, h1) =~= pre1 + (encode_str(h1) + post1));
        assert(item_bytes(name, h2) =~= pre1 + (encode_str(h2) + post1));
        lemma_concat_inj(pre1, encode_str(h1) + post1, pre1, encode_str(h2) + post1);
        lemma_concat_inj(encode_str(h1), post1, encode_str(h2), post1);
        assert(encode_str(h1) =~= seq![0x22u8] + (ascii_bytes(h1) + seq![0x22u8]));
        assert(encode_str(h2) =~= seq![0x22u8] + (ascii_bytes(h2) + seq![0x22u8]));
        lemma_concat_inj(
            seq![0x22u8],
            ascii_bytes(h1) + seq![0x22u8],
            seq![0x22u8],
            ascii_bytes(h2) + seq![0x22u8],
        );
        lemma_concat_inj(ascii_bytes(h1), seq![0x22u8], ascii_bytes(h2), seq![0x22u8]);
        lemma_ascii_bytes_inj(h1, h2);
    }
}

/// The per-item canonical values of a pair list.
pub open spec fn items_canon(ps: Seq<(Seq<char>, Seq<char>)>) -> Seq<CanonView> {
    Seq::new(ps.len(), |i: int| chain_item_canon(ps[i].0, ps[i].1))
}

proof fn lemma_chain_items_len(xs: Seq<(Seq<char>, Seq<char>)>, ys: Seq<(Seq<char>, Seq<char>)>)
    requires
        xs.len() == ys.len(),
        forall|i: int| 0 <= i < xs.len() ==> (#[trigger] xs[i]).0 == ys[i].0,
        forall|i: int|
            0 <= i < xs.len() ==> clean_chars((#[trigger] xs[i]).1) && clean_chars(ys[i].1),
        forall|i: int| 0 <= i < xs.len() ==> (#[trigger] xs[i]).1.len() == ys[i].1.len(),
    ensures
        encode_arr_items(items_canon(xs)).len() == encode_arr_items(items_canon(ys)).len(),
    decreases xs.len(),
{
    if xs.len() > 0 {
        lemma_item_bytes(xs[0].0, xs[0].1);
        lemma_item_bytes(ys[0].0, ys[0].1);
        lemma_encode_str_clean(xs[0].1);
        lemma_encode_str_clean(ys[0].1);
        assert(items_canon(xs)[0] == chain_item_canon(xs[0].0, xs[0].1));
        assert(items_canon(ys)[0] == chain_item_canon(ys[0].0, ys[0].1));
        if xs.len() > 1 {
            let xd = xs.drop_first();
            let yd = ys.drop_first();
            assert forall|i: int| 0 <= i < xd.len() implies (#[trigger] xd[i]).0 == yd[i].0
                && clean_chars(xd[i].1) && clean_chars(yd[i].1) && xd[i].1.len()
                == yd[i].1.len() by {
                assert(xd[i] == xs[i + 1]);
                assert(yd[i] == ys[i + 1]);
            }
            lemma_chain_items_len(xd, yd);
            assert(items_canon(xs).drop_first() =~= items_canon(xd));
            assert(items_canon(ys).drop_first() =~= items_canon(yd));
        }
    }
}

proof fn lemma_chain_items_differ(
    xs: Seq<(Seq<char>, Seq<char>)>,
    ys: Seq<(Seq<char>, Seq<char>)>,
    k: int,
)
    requires
        xs.len() == ys.len(),
        forall|i: int| 0 <= i < xs.len() ==> (#[trigger] xs[i]).0 == ys[i].0,
        forall|i: int|
            0 <= i < xs.len() ==> clean_chars((#[trigger] xs[i]).1) && clean_chars(ys[i].1),
        forall|i: int| 0 <= i < xs.len() ==> (#[trigger] xs[i]).1.len() == ys[i].1.len(),
        0 <= k < xs.len(),
        forall|i: int| 0 <= i < xs.len() && i != k ==> (#[trigger] xs[i]).1 == ys[i].1,
        xs[k].1 != ys[k].1,
    ensures
        encode_arr_items(items_canon(xs)) != encode_arr_items(items_canon(ys)),
    decreases xs.len(),
{
    let e1 = encode_arr_items(items_canon(xs));
    let e2 = encode_arr_items(items_canon(ys));
    let h1 = encode_canon(items_canon(xs)[0]);
    let h2 = encode_canon(items_canon(ys)[0]);
    lemma_item_bytes(xs[0].0, xs[0].1);
    lemma_item_bytes(ys[0].0, ys[0].1);
    assert(items_canon(xs)[0] == chain_item_canon(xs[0].0, xs[0].1));
    assert(items_canon(ys)[0] == chain_item_canon(ys[0].0, ys[0].1));
    let xd = xs.drop_first();
    let yd = ys.drop_first();
    assert(items_canon(xs).drop_first() =~= items_canon(xd));
    assert(items_canon(ys).drop_first() =~= items_canon(yd));
    assert forall|i: int| 0 <= i < xd.len() implies (#[trigger] xd[i]).0 == yd[i].0 && clean_chars(
        xd[i].1,
    ) && clean_chars(yd[i].1) && xd[i].1.len() == yd[i].1.len() by {
        assert(xd[i] == xs[i + 1]);
        assert(yd[i] == ys[i + 1]);
    }
    if k == 0 {
        lemma_item_bytes_differ(xs[0].0, xs[0].1, ys[0].1);
        assert(h1 != h2);
        assert(h1.len() == h2.len());
        if xs.len() == 1 {
            assert(e1 == h1);
            assert(e2 == h2);
        } else {
            if e1 == e2 {
                assert(e1 =~= h1 + (seq![0x2cu8] + encode_arr_items(items_canon(xd))));
                assert(e2 =~= h2 + (seq![0x2cu8] + encode_arr_items(items_canon(yd))));
                lemma_concat_inj(
                    h1,
                    seq![0x2cu8] + encode_arr_items(items_canon(xd)),
                    h2,
                    seq![0x2cu8] + encode_arr_items(items_canon(yd)),
                );
            }
        }
    } else {
        assert(xs[0].1 == ys[0].1);
        assert(h1 == h2);
        assert forall|i: int| 0 <= i < xd.len() && i != k - 1 implies (#[trigger] xd[i]).1
            == yd[i].1 by {
            assert(xd[i] == xs[i + 1]);
            assert(yd[i] == ys[i + 1]);
        }
        assert(xd[k - 1] == xs[k]);
        assert(yd[k - 1] == ys[k]);
        lemma_chain_items_differ(xd, yd, k - 1);
        if e1 == e2 {
            assert(e1 =~= h1 + (seq![0x2cu8] + encode_arr_items(items_canon(xd))));
            assert(e2 =~= h2 + (seq![0x2cu8] + encode_arr_items(items_canon(yd))));
            lemma_concat_inj(
                h1,
                seq![0x2cu8] + encode_arr_items(items_canon(xd)),
                h2,
                seq![0x2cu8] + encode_arr_items(items_canon(yd)),
            );
            lemma_concat_inj(
                seq![0x2cu8],
                encode_arr_items(items_canon(xd)),
                seq![0x2cu8],
                encode_arr_items(items_canon(yd)),
            );
        }
    }
}

/// Replacing one link's hash with a different string of the same length
/// changes the bytes the chain hash is computed over, whenever names agree
/// and the hash strings are printable ASCII without quote or backslash, as
/// hex digests are. The hash function itself is named, not interpreted, so
/// the digests' inequality is the one step left to runtime checks.
pub proof fn lemma_chain_bytes_hash_sensitive(items1: Seq<CertItem>, items2: Seq<CertItem>, k: int)
    requires
        items1.len() == items2.len(),
        forall|i: int|
            0 <= i < items1.len() ==> (#[trigger] items1[i]).name@ == items2[i].name@,
        forall|i: int|
            0 <= i < items1.len() ==> clean_chars((#[trigger] items1[i]).hash_hex@)
                && clean_chars(items2[i].hash_hex@),
        forall|i: int|
            0 <= i < items1.len() ==> (#[trigger] items1[i]).hash_hex@.len()
                == items2[i].hash_hex@.len(),
        0 <= k < items1.len(),
        forall|i: int|
            0 <= i < items1.len() && i != k ==> (#[trigger] items1[i]).hash_hex@
                == items2[i].hash_hex@,
        items1[k].hash_hex@ != items2[k].hash_hex@,
    ensures
        chain_bytes(items1) != chain_bytes(items2),
{
    let xs = chain_pairs(items1);
    let ys = chain_pairs(items2);
    assert(chain_canon(xs)->Arr_0 =~= items_canon(xs));
    assert(chain_canon(ys)->Arr_0 =~= items_canon(ys));
    lemma_chain_items_differ(xs, ys, k);
    lemma_chain_items_len(xs, ys);
    if chain_bytes(items1) == chain_bytes(items2) {
        let a1 = encode_arr_items(items_canon(xs));
        let a2 = encode_arr_items(items_canon(ys));
        assert(chain_bytes(items1) =~= seq![0x5bu8] + (a1 + seq![0x5du8]));
        assert(chain_bytes(items2) =~= seq![0x5bu8] + (a2 + seq![0x5du8]));
        lemma_concat_inj(seq![0x5bu8], a1 + seq![0x5du8], seq![0x5bu8], a2 + seq![0x5du8]);
        lemma_concat_inj(a1, seq![0x5du8], a2, seq![0x5du8]);
    }
}

/// Every lowercase hex string is clean, so digest strings satisfy the
/// hypotheses of the sensitivity lemma.
pub proof fn lemma_hex_chars_clean(bytes: Seq<u8>)
    ensures
        clean_chars(hex_of(bytes)),
    decreases bytes.len(),
{
    if bytes.len() > 0 {
        lemma_hex_chars_clean(bytes.drop_first());
        assert forall|i: int| 0 <= i < hex_of(bytes).len() implies clean_char(
            #[trigger] hex_of(bytes)[i],
        ) by {
            if i >= 2 {
                assert(hex_of(bytes)[i] == hex_of(bytes.drop_first())[i - 2]);
            }
        }
    }
}

/// A quoted clean string determines itself and whatever follows it: the
/// closing quote cannot be mistaken for a string byte.
proof fn lemma_quoted_prefix_free(s1: Seq<char>, t1: Seq<u8>, s2: Seq<char>, t2: Seq<u8>)
    requires
        clean_chars(s1),
        clean_chars(s2),
        encode_str(s1) + t1 == encode_str(s2) + t2,
    ensures
        s1 == s2,
        t1 == t2,
{
    lemma_encode_str_clean(s1);
    lemma_encode_str_clean(s2);
    let a = encode_str(s1) + t1;
    let b = encode_str(s2) + t2;
    let l1 = s1.len() as int;
    let l2 = s2.len() as int;
    if l1 != l2 {
        if l1 < l2 {
            assert(a[l1 + 1] == 0x22u8) by {
                assert(encode_str(s1) =~= seq![0x22u8] + ascii_bytes(s1) + seq![0x22u8]);
                assert(encode_str(s1)[l1 + 1] == 0x22u8);
                assert(a[l1 + 1] == encode_str(s1)[l1 + 1]);
            }
            assert(b[l1 + 1] == s2[l1] as u8) by {
                assert(encode_str(s2) =~= seq![0x22u8] + ascii_bytes(s2) + seq![0x22u8]);
                assert(encode_str(s2)[l1 + 1] == ascii_bytes(s2)[l1]);
                assert(b[l1 + 1] == encode_str(s2)[l1 + 1]);
            }
            assert(clean_char(s2[l1]));
            assert(s2[l1] as u8 as int == s2[l1] as int);
            assert(a[l1 + 1] != b[l1 + 1]);
            assert(false);
        } else {
            assert(b[l2 + 1] == 0x22u8) by {
                assert(encode_str(s2) =~= seq![0x22u8] + ascii_bytes(s2) + seq![0x22u8]);
                assert(encode_str(s2)[l2 + 1] == 0x22u8);
                assert(b[l2 + 1] == encode_str(s2)[l2 + 1]);
            }
            assert(a[l2 + 1] == s1[l2] as u8) by {
                assert(encode_str(s1) =~= seq![0x22u8] + ascii_bytes(s1) + seq![0x22u8]);
                assert(encode_str(s1)[l2 + 1] == ascii_bytes(s1)[l2]);
                assert(a[l2 + 1] == encode_str(s1)[l2 + 1]);
            }
            assert(clean_char(s1[l2]));
            assert(s1[l2] as u8 as int == s1[l2] as int);
            assert(a[l2 + 1] != b[l2 + 1]);
            assert(false);
        }
    }
    lemma_concat_inj(encode_str(s1), t1, encode_str(s2), t2);
    assert(encode_str(s1) =~= seq![0x22u8] + (ascii_bytes(s1) + seq![0x22u8]));
    assert(encode_str(s2) =~= seq![0x22u8] + (ascii_bytes(s2) + seq![0x22u8]));
    lemma_concat_inj(
        seq![0x22u8],
        ascii_bytes(s1) + seq![0x22u8],
        seq![0x22u8],
        ascii_bytes(s2) + seq![0x22u8],
    );
    lemma_concat_inj(ascii_bytes(s1), seq![0x22u8], ascii_bytes(s2), seq![0x22u8]);
    lemma_ascii_bytes_inj(s1, s2);
}

/// One rendered link determines its name, its hash, and whatever follows.
proof fn lemma_item_prefix_free(
    n1: Seq<char>,
    h1: Seq<char>,
    t1: Seq<u8>,
    n2: Seq<char>,
    h2: Seq<char>,
    t2: Seq<u8>,
)
    requires
        clean_chars(n1),
        clean_chars(n2),
        clean_chars(h1),
        clean_chars(h2),
        h1.len() == h2.len(),
        item_bytes(n1, h1) + t1 == item_bytes(n2, h2) + t2,
    ensures
        n1 == n2,
        h1 == h2,
        t1 == t2,
{
    lemma_encode_str_clean(h1);
    lemma_encode_str_clean(h2);
    let pre = seq![0x7bu8] + encode_str("hash"@) + seq![0x3au8];
    let mid = seq![0x2cu8] + encode_str("name"@) + seq![0x3au8];
    assert(item_bytes(n1, h1) + t1 =~= pre + (encode_str(h1) + (mid + (encode_str(n1) + (seq![
        0x7du8,
    ] + t1)))));
    assert(item_bytes(n2, h2) + t2 =~= pre + (encode_str(h2) + (mid + (encode_str(n2) + (seq![
        0x7du8,
    ] + t2)))));
    lemma_concat_inj(
        pre,
        encode_str(h1) + (mid + (encode_str(n1) + (seq![0x7du8] + t1))),
        pre,
        encode_str(h2) + (mid + (encode_str(n2) + (seq![0x7du8] + t2))),
    );
    lemma_concat_inj(
        encode_str(h1),
        mid + (encode_str(n1) + (seq![0x7du8] + t1)),
        encode_str(h2),
        mid + (encode_str(n2) + (seq![0x7du8] + t2)),
    );
    assert(encode_str(h1) =~= seq![0x22u8] + (ascii_bytes(h1) + seq![0x22u8]));
    assert(encode_str(h2) =~= seq![0x22u8] + (ascii_bytes(h2) + seq![0x22u8]));
    lemma_concat_inj(
        seq![0x22u8],
        ascii_bytes(h1) + seq![0x22u8],
        seq![0x22u8],
        ascii_bytes(h2) + seq![0x22u8],
    );
    lemma_concat_inj(ascii_bytes(h1), seq![0x22u8], ascii_bytes(h2), seq![0x22u8]);
    lemma_ascii_bytes_inj(h1, h2);
    lemma_concat_inj(
        mid,
        encode_str(n1) + (seq![0x7du8] + t1),
        mid,
        encode_str(n2) + (seq![0x7du8] + t2),
    );
    lemma_quoted_prefix_free(n1, seq![0x7du8] + t1, n2, seq![0x7du8] + t2);
    lemma_concat_inj(seq![0x7du8], t1, seq![0x7du8], t2);
}

proof fn lemma_chain_items_inj(xs: Seq<(Seq<char>, Seq<char>)>, ys: Seq<(Seq<char>, Seq<char>)>)
    requires
        xs.len() == ys.len(),
        forall|i: int|
            0 <= i < xs.len() ==> clean_chars((#[trigger] xs[i]).0) && clean_chars(xs[i].1),
        forall|i: int|
            0 <= i < ys.len() ==> clean_chars((#[trigger] ys[i]).0) && clean_chars(ys[i].1),
        forall|i: int| 0 <= i < xs.len() ==> (#[trigger] xs[i]).1.len() == ys[i].1.len(),
        encode_arr_items(items_canon(xs)) == encode_arr_items(items_canon(ys)),
    ensures
        xs == ys,
    decreases xs.len(),
{
    if xs.len() == 0 {
        assert(xs =~= ys);
    } else {
        lemma_item_bytes(xs[0].0, xs[0].1);
        lemma_item_bytes(ys[0].0, ys[0].1);
        assert(items_canon(xs)[0] == chain_item_canon(xs[0].0, xs[0].1));
        assert(items_canon(ys)[0] == chain_item_canon(ys[0].0, ys[0].1));
        let xd = xs.drop_first();
        let yd = ys.drop_first();
        assert(items_canon(xs).drop_first() =~= items_canon(xd));
        assert(items_canon(ys).drop_first() =~= items_canon(yd));
        if xs.len() == 1 {
            assert(item_bytes(xs[0].0, xs[0].1) + Seq::<u8>::empty() =~= encode_arr_items(
                items_canon(xs),
            ));
            assert(item_bytes(ys[0].0, ys[0].1) + Seq::<u8>::empty() =~= encode_arr_items(
                items_canon(ys),
            ));
            lemma_item_prefix_free(
                xs[0].0,
                xs[0].1,
                Seq::empty(),
                ys[0].0,
                ys[0].1,
                Seq::empty(),
            );
            assert(xs[0].0 == ys[0].0 && xs[0].1 == ys[0].1);
            assert(xs =~~= ys);
        } else {
            let r1 = seq![0x2cu8] + encode_arr_items(items_canon(xd));
            let r2 = seq![0x2cu8] + encode_arr_items(items_canon(yd));
            assert(encode_arr_items(items_canon(xs)) =~= item_bytes(xs[0].0, xs[0].1) + r1);
            assert(encode_arr_items(items_canon(ys)) =~= item_bytes(ys[0].0, ys[0].1) + r2);
            lemma_item_prefix_free(xs[0].0, xs[0].1, r1, ys[0].0, ys[0].1, r2);
            assert(xs[0].0 == ys[0].0 && xs[0].1 == ys[0].1);
            lemma_concat_inj(
                seq![0x2cu8],
                encode_arr_items(items_canon(xd)),
                seq![0x2cu8],
                encode_arr_items(items_canon(yd)),
            );
            assert forall|i: int|
                0 <= i < xd.len() implies clean_chars((#[trigger] xd[i]).0) && clean_chars(
                xd[i].1,
            ) && clean_chars(yd[i].0) && clean_chars(yd[i].1) && xd[i].1.len()
                == yd[i].1.len() by {
                assert(xd[i] == xs[i + 1]);
                assert(yd[i] == ys[i + 1]);
            }
            lemma_chain_items_inj(xd, yd);
            assert forall|i: int| 0 <= i < xs.len() implies (#[trigger] xs[i]).0 == ys[i].0
                && xs[i].1 == ys[i].1 by {
                if i > 0 {
                    assert(xs[i] == xd[i - 1]);
                    assert(ys[i] == yd[i - 1]);
                }
            }
            assert(xs =~~= ys);
        }
    }
}

/// Two chains of the same length, whose names and hashes are printable
/// ASCII without quote or backslash and whose hash strings have equal
/// lengths position by position, hash over different bytes whenever any
/// link differs at all: permuting links or replacing any hash changes the
/// chain's hash input.
pub proof fn lemma_chain_bytes_inj(items1: Seq<CertItem>, items2: Seq<CertItem>)
    requires
        items1.len() == items2.len(),
        forall|i: int|
            0 <= i < items1.len() ==> clean_chars((#[trigger] items1[i]).name@) && clean_chars(
                items1[i].hash_hex@,
            ),
        forall|i: int|
            0 <= i < items2.len() ==> clean_chars((#[trigger] items2[i]).name@) && clean_chars(
                items2[i].hash_hex@,
            ),
        forall|i: int|
            0 <= i < items1.len() ==> (#[trigger] items1[i]).hash_hex@.len()
                == items2[i].hash_hex@.len(),
        chain_pairs(items1) != chain_pairs(items2),
    ensures
        chain_bytes(items1) != chain_bytes(items2),
{
    let xs = chain_pairs(items1);
    let ys = chain_pairs(items2);
    assert(chain_canon(xs)->Arr_0 =~= items_canon(xs));
    assert(chain_canon(ys)->Arr_0 =~= items_canon(ys));
    if chain_bytes(items1) == chain_bytes(items2) {
        let a1 = encode_arr_items(items_canon(xs));
        let a2 = encode_arr_items(items_canon(ys));
        assert(chain_bytes(items1) =~= seq![0x5bu8] + (a1 + seq![0x5du8]));
        assert(chain_bytes(items2) =~= seq![0x5bu8] + (a2 + seq![0x5du8]));
        assert(chain_bytes(items1).len() == chain_bytes(items2).len());
        lemma_concat_inj(seq![0x5bu8], a1 + seq![0x5du8], seq![0x5bu8], a2 + seq![0x5du8]);
        lemma_concat_inj(a1, seq![0x5du8], a2, seq![0x5du8]);
        lemma_chain_items_inj(xs, ys);
    }
}

} // verus!
