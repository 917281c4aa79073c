//! B+Tree node types: [`InternalNode`] and [`LeafNode`].
//!
//! # Internal node layout
//!
//! ```text
//! 0 .. 32                    PageHeader (page_type = BTreeInternal)
//! 32 .. 34                   num_keys: u16
//! 34 .. 38                   right_child: u32
//! 38 ..                      per-node config (e.g. max_key_size)
//! then                       entries: [key + child_page_id(u32)] × num_keys
//! ```
//!
//! # Leaf node layout
//!
//! ```text
//! 0 .. 32                    PageHeader (page_type = BTreeLeaf)
//! 32 .. 34                   num_entries: u16
//! 34 .. 38                   next_leaf: u32
//! 38 .. 42                   prev_leaf: u32
//! 42 ..                      per-node config (e.g. max_key_size)
//! then                       entries: [key + page_id(u32) + slot_id(u16)] × n
//! ```

use vstd::prelude::*;

use crate::btree::key::Key;
use crate::bytes::{
    field, get_u16, get_u32, le_bytes, lemma_le_bytes_len, lemma_le_round_trip,
    lemma_lex_asymmetric, lemma_lex_irreflexive, lemma_lex_total, lemma_lex_transitive,
    lemma_pow256_values, lex_le, lex_lt, push_le, splice, zeros,
};
use crate::page::{
    lemma_header_frame, lemma_header_len, lemma_header_round_trip, write_at, Page, PageHeader,
    PageType, PAGE_SIZE,
};

verus! {

/// An index entry: the key's bytes and the place of the document.
pub type Entry = (Seq<u8>, (u32, u16));

// ── Capacity ────────────────────────────────────────────────────────────

/// The most keys an internal node can hold.
pub open spec fn internal_cap<K: Key>(cfg: K::Config) -> nat {
    ((8160 - 6 - K::meta_len()) / (K::slot_len(cfg) + 4) as int) as nat
}

/// The most entries a leaf can hold.
pub open spec fn leaf_cap<K: Key>(cfg: K::Config) -> nat {
    ((8160 - 10 - K::meta_len()) / (K::slot_len(cfg) + 6) as int) as nat
}

/// Nodes have room for at least one key.
pub open spec fn config_ok<K: Key>(cfg: K::Config) -> bool {
    leaf_cap::<K>(cfg) >= 1 && internal_cap::<K>(cfg) >= 1
}

/// What a node of `n` records of width `w` takes stays within its page.
pub proof fn lemma_capacity(n: nat, w: nat, space: int)
    requires
        w > 0,
        0 <= space,
        n <= space / w as int,
    ensures
        n * w <= space,
{
    assert(n * w <= space) by (nonlinear_arith)
        requires
            w > 0,
            0 <= space,
            n <= space / w as int,
    ;
}

pub proof fn lemma_cap_bounds<K: Key>(cfg: K::Config)
    ensures
        leaf_cap::<K>(cfg) <= 8160,
        internal_cap::<K>(cfg) <= 8160,
{
    K::lemma_config(cfg);
    let a = 8160 - 10 - K::meta_len();
    let b = (K::slot_len(cfg) + 6) as int;
    assert(0 <= a / b <= a) by (nonlinear_arith)
        requires
            a >= 0,
            b >= 1,
    ;
    let c = 8160 - 6 - K::meta_len();
    let d = (K::slot_len(cfg) + 4) as int;
    assert(0 <= c / d <= c) by (nonlinear_arith)
        requires
            c >= 0,
            d >= 1,
    ;
}

/// Returns the maximum number of keys an internal node can hold.
pub fn internal_max_keys<K: Key>(cfg: K::Config) -> (r: usize)
    ensures
        r == internal_cap::<K>(cfg),
        r <= 8160,
{
    proof {
        lemma_cap_bounds::<K>(cfg);
    }
    let entry_size: usize = K::slot_key_size(cfg) + 4;
    (8160 - 6 - K::node_meta_bytes()) / entry_size
}

/// Returns the maximum number of entries a leaf can hold.
pub fn leaf_max_entries<K: Key>(cfg: K::Config) -> (r: usize)
    ensures
        r == leaf_cap::<K>(cfg),
        r <= 8160,
{
    proof {
        lemma_cap_bounds::<K>(cfg);
    }
    let entry_size: usize = K::slot_key_size(cfg) + 6;
    (8160 - 10 - K::node_meta_bytes()) / entry_size
}

/// Returns the minimum number of keys an internal node should keep before
/// being considered underfull (and thus eligible for merge/redistribute).
pub fn internal_min_keys<K: Key>(cfg: K::Config) -> (r: usize)
    ensures
        r == internal_cap::<K>(cfg) * 40 / 100,
{
    internal_max_keys::<K>(cfg) * 40 / 100
}

/// Returns the minimum number of entries a leaf should keep before being
/// considered underfull.
pub fn leaf_min_entries<K: Key>(cfg: K::Config) -> (r: usize)
    ensures
        r == leaf_cap::<K>(cfg) * 40 / 100,
{
    leaf_max_entries::<K>(cfg) * 40 / 100
}

// ── Records on a page ───────────────────────────────────────────────────

/// A node entry on a page: the key in its slot, then the pointer bytes.
pub open spec fn rec_image<K: Key>(e: (Seq<u8>, Seq<u8>), cfg: K::Config) -> Seq<u8> {
    K::slot_image(e.0, cfg) + e.1
}

/// Node entries one after another.
pub open spec fn recs_image<K: Key>(es: Seq<(Seq<u8>, Seq<u8>)>, cfg: K::Config) -> Seq<u8>
    decreases es.len(),
{
    if es.len() == 0 {
        Seq::empty()
    } else {
        recs_image::<K>(es.drop_last(), cfg) + rec_image::<K>(es.last(), cfg)
    }
}

/// All keys fit their slots and all pointers take `t` bytes.
pub open spec fn recs_ok<K: Key>(es: Seq<(Seq<u8>, Seq<u8>)>, cfg: K::Config, t: nat) -> bool {
    forall|i: int|
        0 <= i < es.len() ==> K::key_ok((#[trigger] es[i]).0, cfg) && es[i].1.len() == t
}

proof fn lemma_recs_len<K: Key>(es: Seq<(Seq<u8>, Seq<u8>)>, cfg: K::Config, t: nat)
    requires
        recs_ok::<K>(es, cfg, t),
    ensures
        recs_image::<K>(es, cfg).len() == es.len() * (K::slot_len(cfg) + t),
    decreases es.len(),
{
    let w = K::slot_len(cfg) + t;
    if es.len() > 0 {
        assert(recs_ok::<K>(es.drop_last(), cfg, t)) by {
            assert forall|i: int| 0 <= i < es.drop_last().len() implies K::key_ok(
                (#[trigger] es.drop_last()[i]).0,
                cfg,
            ) && es.drop_last()[i].1.len() == t by {
                assert(es.drop_last()[i] == es[i]);
            }
        }
        lemma_recs_len::<K>(es.drop_last(), cfg, t);
        K::lemma_slot(es.last().0, cfg);
        let n = es.len();
        assert(n * w == (n - 1) * w + w) by (nonlinear_arith);
        assert(es[n - 1] == es.last());
    } else {
        assert(0 * w == 0);
    }
}

proof fn lemma_recs_at<K: Key>(
    es: Seq<(Seq<u8>, Seq<u8>)>,
    cfg: K::Config,
    t: nat,
    i: int,
)
    requires
        recs_ok::<K>(es, cfg, t),
        0 <= i < es.len(),
    ensures
        ({
            let w = K::slot_len(cfg) + t;
            &&& 0 <= i * w
            &&& i * w + w <= recs_image::<K>(es, cfg).len()
            &&& recs_image::<K>(es, cfg).subrange(i * w, i * w + w) == rec_image::<K>(es[i], cfg)
            &&& rec_image::<K>(es[i], cfg).len() == w
        }),
    decreases es.len(),
{
    let w = K::slot_len(cfg) + t;
    let n = es.len();
    let front = es.drop_last();
    assert(recs_ok::<K>(front, cfg, t)) by {
        assert forall|j: int| 0 <= j < front.len() implies K::key_ok(
            (#[trigger] front[j]).0,
            cfg,
        ) && front[j].1.len() == t by {
            assert(front[j] == es[j]);
        }
    }
    lemma_recs_len::<K>(es, cfg, t);
    lemma_recs_len::<K>(front, cfg, t);
    K::lemma_slot(es[i].0, cfg);
    K::lemma_slot(es.last().0, cfg);
    assert(es[n - 1] == es.last());
    assert(0 <= i * w && i * w + w <= n * w) by (nonlinear_arith)
        requires
            0 <= i < n,
            w >= 0,
    ;
    if i == n - 1 {
        assert(i * w == (n - 1) * w);
        assert(recs_image::<K>(es, cfg).subrange(i * w, i * w + w) =~= rec_image::<K>(
            es[i],
            cfg,
        ));
    } else {
        lemma_recs_at::<K>(front, cfg, t, i);
        assert(i * w + w <= (n - 1) * w) by (nonlinear_arith)
            requires
                0 <= i < n - 1,
                w >= 0,
        ;
        assert(recs_image::<K>(es, cfg).subrange(i * w, i * w + w) =~= recs_image::<K>(
            front,
            cfg,
        ).subrange(i * w, i * w + w));
        assert(front[i] == es[i]);
    }
}

/// The page whose first bytes are `front` and whose other bytes are zero.
pub open spec fn padded(front: Seq<u8>) -> Seq<u8> {
    splice(zeros(PAGE_SIZE as nat), 0, front)
}

fn pad_page(front: &Vec<u8>) -> (r: Page)
    requires
        front@.len() <= PAGE_SIZE,
    ensures
        r@ == padded(front@),
{
    let mut buf: Page = [0u8;PAGE_SIZE];
    assert(buf@ =~= zeros(PAGE_SIZE as nat));
    write_at(&mut buf, 0, front.as_slice());
    buf
}

// ── Leaf pages ──────────────────────────────────────────────────────────

/// Where the entries of a leaf start.
pub open spec fn leaf_base<K: Key>() -> int {
    42 + K::meta_len() as int
}

/// The bytes of a leaf page before its entries.
pub open spec fn leaf_head<K: Key>(
    page_id: u32,
    num: u16,
    next: u32,
    prev: u32,
    cfg: K::Config,
) -> Seq<u8> {
    PageHeader::fresh(page_id, PageType::BTreeLeaf).image() + le_bytes(num as nat, 2) + le_bytes(
        next as nat,
        4,
    ) + le_bytes(prev as nat, 4) + K::config_image(cfg)
}

/// The pointer bytes of a leaf entry.
pub open spec fn leaf_ptr(v: (u32, u16)) -> Seq<u8> {
    le_bytes(v.0 as nat, 4) + le_bytes(v.1 as nat, 2)
}

/// Leaf entries as page records.
pub open spec fn leaf_recs(es: Seq<Entry>) -> Seq<(Seq<u8>, Seq<u8>)> {
    Seq::new(es.len(), |i: int| (es[i].0, leaf_ptr(es[i].1)))
}

/// The page of a leaf.
pub open spec fn leaf_image<K: Key>(
    page_id: u32,
    num: u16,
    next: u32,
    prev: u32,
    cfg: K::Config,
    es: Seq<Entry>,
) -> Seq<u8> {
    padded(leaf_head::<K>(page_id, num, next, prev, cfg) + recs_image::<K>(leaf_recs(es), cfg))
}

/// The configuration on a leaf page.
pub open spec fn leaf_cfg<K: Key>(p: Seq<u8>) -> K::Config {
    K::config_parse(p.subrange(42, 42 + K::meta_len() as int))
}

/// The number of entries a leaf page declares.
pub open spec fn leaf_num(p: Seq<u8>) -> int {
    field(p, 32, 2) as int
}

/// Where entry `i` of a leaf page lies.
pub open spec fn leaf_off<K: Key>(cfg: K::Config, i: int) -> int {
    leaf_base::<K>() + i * (K::slot_len(cfg) + 6)
}

/// Entry `i` of a leaf page.
pub open spec fn leaf_entry<K: Key>(p: Seq<u8>, cfg: K::Config, i: int) -> Entry {
    let o = leaf_off::<K>(cfg, i);
    let s = K::slot_len(cfg) as int;
    (
        K::slot_key(p.subrange(o, o + s), cfg),
        (field(p, o + s, 4) as u32, field(p, o + s + 4, 2) as u16),
    )
}

/// The entries of a leaf page.
pub open spec fn leaf_entries<K: Key>(p: Seq<u8>) -> Seq<Entry> {
    Seq::new(leaf_num(p) as nat, |i: int| leaf_entry::<K>(p, leaf_cfg::<K>(p), i))
}

/// The declared entries of a leaf page lie on the page and hold keys.
pub open spec fn leaf_readable<K: Key>(p: Seq<u8>) -> bool {
    let cfg = leaf_cfg::<K>(p);
    &&& p.len() == PAGE_SIZE
    &&& leaf_off::<K>(cfg, leaf_num(p)) <= PAGE_SIZE
    &&& forall|i: int|
        0 <= i < leaf_num(p) ==> K::slot_valid(
            p.subrange(
                #[trigger] leaf_off::<K>(cfg, i),
                leaf_off::<K>(cfg, i) + K::slot_len(cfg) as int,
            ),
            cfg,
        )
}

/// The entries fit a leaf page.
pub open spec fn leaf_fits<K: Key>(es: Seq<Entry>, cfg: K::Config) -> bool {
    &&& leaf_off::<K>(cfg, es.len() as int) <= PAGE_SIZE
    &&& forall|i: int| 0 <= i < es.len() ==> K::key_ok((#[trigger] es[i]).0, cfg)
}

proof fn lemma_leaf_head_len<K: Key>(
    page_id: u32,
    num: u16,
    next: u32,
    prev: u32,
    cfg: K::Config,
)
    ensures
        leaf_head::<K>(page_id, num, next, prev, cfg).len() == leaf_base::<K>(),
{
    lemma_header_len(PageHeader::fresh(page_id, PageType::BTreeLeaf));
    lemma_le_bytes_len(num as nat, 2);
    lemma_le_bytes_len(next as nat, 4);
    lemma_le_bytes_len(prev as nat, 4);
    K::lemma_config(cfg);
}

proof fn lemma_leaf_recs_ok<K: Key>(es: Seq<Entry>, cfg: K::Config)
    requires
        forall|i: int| 0 <= i < es.len() ==> K::key_ok((#[trigger] es[i]).0, cfg),
    ensures
        recs_ok::<K>(leaf_recs(es), cfg, 6),
{
    assert forall|i: int| 0 <= i < leaf_recs(es).len() implies K::key_ok(
        (#[trigger] leaf_recs(es)[i]).0,
        cfg,
    ) && leaf_recs(es)[i].1.len() == 6 by {
        assert(leaf_recs(es)[i].0 == es[i].0);
        lemma_le_bytes_len(es[i].1.0 as nat, 4);
        lemma_le_bytes_len(es[i].1.1 as nat, 2);
    }
}

/// A leaf page reads back as it was written.
#[verifier::rlimit(40)]
pub proof fn lemma_leaf_round_trip<K: Key>(
    page_id: u32,
    num: u16,
    next: u32,
    prev: u32,
    cfg: K::Config,
    es: Seq<Entry>,
)
    requires
        num == es.len(),
        leaf_fits::<K>(es, cfg),
    ensures
        ({
            let p = leaf_image::<K>(page_id, num, next, prev, cfg, es);
            &&& p.len() == PAGE_SIZE
            &&& PageHeader::parse(p) == PageHeader::fresh(page_id, PageType::BTreeLeaf)
            &&& leaf_num(p) == num
            &&& field(p, 34, 4) == next
            &&& field(p, 38, 4) == prev
            &&& leaf_cfg::<K>(p) == cfg
            &&& leaf_readable::<K>(p)
            &&& leaf_entries::<K>(p) == es
        }),
{
    let head = leaf_head::<K>(page_id, num, next, prev, cfg);
    let recs = leaf_recs(es);
    let body = recs_image::<K>(recs, cfg);
    let p = leaf_image::<K>(page_id, num, next, prev, cfg, es);
    let hdr = PageHeader::fresh(page_id, PageType::BTreeLeaf);
    let w = K::slot_len(cfg) + 6;
    let s = K::slot_len(cfg) as int;
    lemma_pow256_values();
    lemma_leaf_head_len::<K>(page_id, num, next, prev, cfg);
    lemma_leaf_recs_ok::<K>(es, cfg);
    lemma_recs_len::<K>(recs, cfg, 6);
    lemma_header_len(hdr);
    lemma_header_round_trip(hdr, zeros(PAGE_SIZE as nat));
    lemma_header_frame(p, splice(zeros(PAGE_SIZE as nat), 0, hdr.image()));
    lemma_le_round_trip(num as nat, 2);
    lemma_le_round_trip(next as nat, 4);
    lemma_le_round_trip(prev as nat, 4);
    K::lemma_config(cfg);
    assert(p.subrange(32, 34) =~= le_bytes(num as nat, 2));
    assert(p.subrange(34, 38) =~= le_bytes(next as nat, 4));
    assert(p.subrange(38, 42) =~= le_bytes(prev as nat, 4));
    assert(p.subrange(42, 42 + K::meta_len() as int) =~= K::config_image(cfg));
    assert forall|i: int| 0 <= i < es.len() implies K::slot_valid(
        p.subrange(#[trigger] leaf_off::<K>(cfg, i), leaf_off::<K>(cfg, i) + s),
        cfg,
    ) && leaf_entry::<K>(p, cfg, i) == es[i] by {
        lemma_recs_at::<K>(recs, cfg, 6, i);
        K::lemma_slot(es[i].0, cfg);
        let o = leaf_off::<K>(cfg, i);
        let r = rec_image::<K>(recs[i], cfg);
        lemma_le_round_trip(es[i].1.0 as nat, 4);
        lemma_le_round_trip(es[i].1.1 as nat, 2);
        assert(p.subrange(o, o + w) =~= body.subrange(i * w, i * w + w));
        assert(p.subrange(o, o + w) == r);
        assert(p.subrange(o, o + s) =~= r.subrange(0, s));
        assert(p.subrange(o, o + s) =~= K::slot_image(es[i].0, cfg));
        assert(p.subrange(o + s, o + s + 4) =~= p.subrange(o, o + w).subrange(s, s + 4));
        assert(p.subrange(o + s, o + s + 4) =~= le_bytes(es[i].1.0 as nat, 4));
        assert(p.subrange(o + s + 4, o + s + 6) =~= p.subrange(o, o + w).subrange(s + 4, s + 6));
        assert(p.subrange(o + s + 4, o + s + 6) =~= le_bytes(es[i].1.1 as nat, 2));
    }
    assert(leaf_entries::<K>(p) =~= es);
}

// ── Internal pages ──────────────────────────────────────────────────────

/// A separator and the child to the left of it.
pub type Sep = (Seq<u8>, u32);

/// Where the entries of an internal node start.
pub open spec fn internal_base<K: Key>() -> int {
    38 + K::meta_len() as int
}

/// The bytes of an internal page before its entries.
pub open spec fn internal_head<K: Key>(
    page_id: u32,
    num: u16,
    right: u32,
    cfg: K::Config,
) -> Seq<u8> {
    PageHeader::fresh(page_id, PageType::BTreeInternal).image() + le_bytes(num as nat, 2)
        + le_bytes(right as nat, 4) + K::config_image(cfg)
}

/// Internal entries as page records.
pub open spec fn internal_recs(es: Seq<Sep>) -> Seq<(Seq<u8>, Seq<u8>)> {
    Seq::new(es.len(), |i: int| (es[i].0, le_bytes(es[i].1 as nat, 4)))
}

/// The page of an internal node.
pub open spec fn internal_image<K: Key>(
    page_id: u32,
    num: u16,
    right: u32,
    cfg: K::Config,
    es: Seq<Sep>,
) -> Seq<u8> {
    padded(internal_head::<K>(page_id, num, right, cfg) + recs_image::<K>(internal_recs(es), cfg))
}

/// The configuration on an internal page.
pub open spec fn internal_cfg<K: Key>(p: Seq<u8>) -> K::Config {
    K::config_parse(p.subrange(38, 38 + K::meta_len() as int))
}

/// Where entry `i` of an internal page lies.
pub open spec fn internal_off<K: Key>(cfg: K::Config, i: int) -> int {
    internal_base::<K>() + i * (K::slot_len(cfg) + 4)
}

/// Entry `i` of an internal page.
pub open spec fn internal_entry<K: Key>(p: Seq<u8>, cfg: K::Config, i: int) -> Sep {
    let o = internal_off::<K>(cfg, i);
    let s = K::slot_len(cfg) as int;
    (K::slot_key(p.subrange(o, o + s), cfg), field(p, o + s, 4) as u32)
}

/// The entries of an internal page.
pub open spec fn internal_entries<K: Key>(p: Seq<u8>) -> Seq<Sep> {
    Seq::new(leaf_num(p) as nat, |i: int| internal_entry::<K>(p, internal_cfg::<K>(p), i))
}

/// The declared entries of an internal page lie on the page and hold keys.
pub open spec fn internal_readable<K: Key>(p: Seq<u8>) -> bool {
    let cfg = internal_cfg::<K>(p);
    &&& p.len() == PAGE_SIZE
    &&& internal_off::<K>(cfg, leaf_num(p)) <= PAGE_SIZE
    &&& forall|i: int|
        0 <= i < leaf_num(p) ==> K::slot_valid(
            p.subrange(
                #[trigger] internal_off::<K>(cfg, i),
                internal_off::<K>(cfg, i) + K::slot_len(cfg) as int,
            ),
            cfg,
        )
}

/// The entries fit an internal page.
pub open spec fn internal_fits<K: Key>(es: Seq<Sep>, cfg: K::Config) -> bool {
    &&& internal_off::<K>(cfg, es.len() as int) <= PAGE_SIZE
    &&& forall|i: int| 0 <= i < es.len() ==> K::key_ok((#[trigger] es[i]).0, cfg)
}

proof fn lemma_internal_recs_ok<K: Key>(es: Seq<Sep>, cfg: K::Config)
    requires
        forall|i: int| 0 <= i < es.len() ==> K::key_ok((#[trigger] es[i]).0, cfg),
    ensures
        recs_ok::<K>(internal_recs(es), cfg, 4),
{
    assert forall|i: int| 0 <= i < internal_recs(es).len() implies K::key_ok(
        (#[trigger] internal_recs(es)[i]).0,
        cfg,
    ) && internal_recs(es)[i].1.len() == 4 by {
        assert(internal_recs(es)[i].0 == es[i].0);
        lemma_le_bytes_len(es[i].1 as nat, 4);
    }
}

/// An internal page reads back as it was written.
#[verifier::rlimit(40)]
pub proof fn lemma_internal_round_trip<K: Key>(
    page_id: u32,
    num: u16,
    right: u32,
    cfg: K::Config,
    es: Seq<Sep>,
)
    requires
        num == es.len(),
        internal_fits::<K>(es, cfg),
    ensures
        ({
            let p = internal_image::<K>(page_id, num, right, cfg, es);
            &&& p.len() == PAGE_SIZE
            &&& PageHeader::parse(p) == PageHeader::fresh(page_id, PageType::BTreeInternal)
            &&& leaf_num(p) == num
            &&& field(p, 34, 4) == right
            &&& internal_cfg::<K>(p) == cfg
            &&& internal_readable::<K>(p)
            &&& internal_entries::<K>(p) == es
        }),
{
    let head = internal_head::<K>(page_id, num, right, cfg);
    let recs = internal_recs(es);
    let body = recs_image::<K>(recs, cfg);
    let p = internal_image::<K>(page_id, num, right, cfg, es);
    let hdr = PageHeader::fresh(page_id, PageType::BTreeInternal);
    let w = K::slot_len(cfg) + 4;
    let s = K::slot_len(cfg) as int;
    lemma_pow256_values();
    lemma_internal_recs_ok::<K>(es, cfg);
    lemma_recs_len::<K>(recs, cfg, 4);
    lemma_header_len(hdr);
    lemma_header_round_trip(hdr, zeros(PAGE_SIZE as nat));
    lemma_header_frame(p, splice(zeros(PAGE_SIZE as nat), 0, hdr.image()));
    lemma_le_round_trip(num as nat, 2);
    lemma_le_round_trip(right as nat, 4);
    K::lemma_config(cfg);
    assert(head.len() == internal_base::<K>());
    assert(p.subrange(32, 34) =~= le_bytes(num as nat, 2));
    assert(p.subrange(34, 38) =~= le_bytes(right as nat, 4));
    assert(p.subrange(38, 38 + K::meta_len() as int) =~= K::config_image(cfg));
    assert forall|i: int| 0 <= i < es.len() implies K::slot_valid(
        p.subrange(#[trigger] internal_off::<K>(cfg, i), internal_off::<K>(cfg, i) + s),
        cfg,
    ) && internal_entry::<K>(p, cfg, i) == es[i] by {
        lemma_recs_at::<K>(recs, cfg, 4, i);
        K::lemma_slot(es[i].0, cfg);
        let o = internal_off::<K>(cfg, i);
        let r = rec_image::<K>(recs[i], cfg);
        lemma_le_round_trip(es[i].1 as nat, 4);
        assert(p.subrange(o, o + w) =~= body.subrange(i * w, i * w + w));
        assert(p.subrange(o, o + w) == r);
        assert(p.subrange(o, o + s) =~= r.subrange(0, s));
        assert(p.subrange(o, o + s) =~= K::slot_image(es[i].0, cfg));
        assert(p.subrange(o + s, o + s + 4) =~= p.subrange(o, o + w).subrange(s, s + 4));
        assert(p.subrange(o + s, o + s + 4) =~= le_bytes(es[i].1 as nat, 4));
    }
    assert(internal_entries::<K>(p) =~= es);
}

// ── Sorted entries ──────────────────────────────────────────────────────

/// Keys in strictly ascending order.
pub open spec fn keys_sorted(ks: Seq<Seq<u8>>) -> bool {
    forall|i: int, j: int|
        0 <= i < j < ks.len() ==> lex_lt(#[trigger] ks[i], #[trigger] ks[j])
}

/// `p` parts the keys: those before it are less than `k`, the others are not.
pub open spec fn lower_bound(ks: Seq<Seq<u8>>, k: Seq<u8>, p: int) -> bool {
    &&& 0 <= p <= ks.len()
    &&& forall|i: int| 0 <= i < p ==> lex_lt(#[trigger] ks[i], k)
    &&& forall|i: int| p <= i < ks.len() ==> !lex_lt(#[trigger] ks[i], k)
}

/// `p` parts the keys: those before it are at most `k`, the others are
/// greater.
pub open spec fn upper_bound(ks: Seq<Seq<u8>>, k: Seq<u8>, p: int) -> bool {
    &&& 0 <= p <= ks.len()
    &&& forall|i: int| 0 <= i < p ==> lex_le(#[trigger] ks[i], k)
    &&& forall|i: int| p <= i < ks.len() ==> lex_lt(k, #[trigger] ks[i])
}

/// In sorted keys the parting point is unique.
pub proof fn lemma_bounds_unique(ks: Seq<Seq<u8>>, k: Seq<u8>, p: int, q: int)
    ensures
        lower_bound(ks, k, p) && lower_bound(ks, k, q) ==> p == q,
        upper_bound(ks, k, p) && upper_bound(ks, k, q) ==> p == q,
{
    if lower_bound(ks, k, p) && lower_bound(ks, k, q) {
        if p < q {
            assert(lex_lt(ks[p], k));
        } else if q < p {
            assert(lex_lt(ks[q], k));
        }
    }
    if upper_bound(ks, k, p) && upper_bound(ks, k, q) {
        if p < q {
            assert(lex_le(ks[p], k));
            assert(lex_lt(k, ks[p]));
            lemma_lex_asymmetric(k, ks[p]);
        } else if q < p {
            assert(lex_le(ks[q], k));
            assert(lex_lt(k, ks[q]));
            lemma_lex_asymmetric(k, ks[q]);
        }
    }
}

/// An entry inside an internal node.
#[derive(Debug, Clone, PartialEq, Eq)]
pub struct InternalEntry<K: Key> {
    pub key: K,
    pub child_page_id: u32,
}

/// An entry inside a leaf node.
#[derive(Debug, Clone, PartialEq, Eq)]
pub struct LeafEntry<K: Key> {
    pub key: K,
    pub page_id: u32,
    pub slot_id: u16,
}

impl<K: Key> InternalEntry<K> {
    /// The separator's bytes and its left child.
    pub open spec fn model(self) -> Sep {
        (self.key.kview(), self.child_page_id)
    }

    /// A copy of the entry.
    pub fn dup(&self) -> (r: Self)
        ensures
            r.model() == self.model(),
    {
        InternalEntry { key: self.key.dup(), child_page_id: self.child_page_id }
    }
}

impl<K: Key> LeafEntry<K> {
    /// The key's bytes and the place of the document.
    pub open spec fn model(self) -> Entry {
        (self.key.kview(), (self.page_id, self.slot_id))
    }

    /// A copy of the entry.
    pub fn dup(&self) -> (r: Self)
        ensures
            r.model() == self.model(),
    {
        LeafEntry { key: self.key.dup(), page_id: self.page_id, slot_id: self.slot_id }
    }
}

/// What entries of an internal node stand for.
pub open spec fn seps_of<K: Key>(es: Seq<InternalEntry<K>>) -> Seq<Sep> {
    Seq::new(es.len(), |i: int| es[i].model())
}

/// What entries of a leaf stand for.
pub open spec fn entries_of<K: Key>(es: Seq<LeafEntry<K>>) -> Seq<Entry> {
    Seq::new(es.len(), |i: int| es[i].model())
}

/// The keys of separators.
pub open spec fn sep_keys(es: Seq<Sep>) -> Seq<Seq<u8>> {
    Seq::new(es.len(), |i: int| es[i].0)
}

/// The keys of entries.
pub open spec fn entry_keys(es: Seq<Entry>) -> Seq<Seq<u8>> {
    Seq::new(es.len(), |i: int| es[i].0)
}

/// A B+Tree internal node.
///
/// `entries[i].child_page_id` is the *left* child of `entries[i].key`, i.e.
/// the subtree containing keys `< entries[i].key` (and `>= entries[i-1].key`).
/// `right_child` is the subtree containing keys `>= entries[last].key`.
#[derive(Debug, Clone)]
pub struct InternalNode<K: Key> {
    pub page_id: u32,
    pub num_keys: u16,
    pub right_child: u32,
    pub config: K::Config,
    pub entries: Vec<InternalEntry<K>>,
}

impl<K: Key> InternalNode<K> {
    /// The separators with their left children.
    pub open spec fn seps(&self) -> Seq<Sep> {
        seps_of(self.entries@)
    }

    /// The separator keys.
    pub open spec fn keys(&self) -> Seq<Seq<u8>> {
        sep_keys(self.seps())
    }

    /// The children from left to right.
    pub open spec fn kids(&self) -> Seq<u32> {
        Seq::new(
            self.entries@.len() + 1,
            |i: int|
                if i < self.entries@.len() {
                    self.entries@[i].child_page_id
                } else {
                    self.right_child
                },
        )
    }

    /// Creates a new empty internal node.
    pub fn new(page_id: u32, config: K::Config) -> (r: Self)
        ensures
            r.page_id == page_id,
            r.num_keys == 0,
            r.right_child == 0,
            r.config == config,
            r.entries@ == Seq::<InternalEntry<K>>::empty(),
    {
        InternalNode { page_id, num_keys: 0, right_child: 0, config, entries: Vec::new() }
    }

    /// Deserialises an internal node from a page buffer.
    pub fn from_bytes(buf: &Page) -> (r: Self)
        requires
            internal_readable::<K>(buf@),
        ensures
            r.page_id == PageHeader::parse(buf@).page_id,
            r.num_keys == leaf_num(buf@),
            r.right_child == field(buf@, 34, 4),
            r.config == internal_cfg::<K>(buf@),
            r.seps() == internal_entries::<K>(buf@),
            forall|i: int|
                0 <= i < r.entries@.len() ==> K::key_ok(
                    (#[trigger] r.entries@[i]).key.kview(),
                    r.config,
                ),
    {
        let header: PageHeader = PageHeader::read_from(buf);
        let num_keys: u16 = get_u16(buf.as_slice(), 32);
        let right_child: u32 = get_u32(buf.as_slice(), 34);
        let meta: usize = K::node_meta_bytes();
        let config: K::Config = K::read_config(&buf[38..38 + meta]);
        let slot_key: usize = K::slot_key_size(config);
        let slot_size: usize = slot_key + 4;
        let start: usize = 38 + meta;
        let mut entries: Vec<InternalEntry<K>> = Vec::new();
        let mut i: usize = 0;
        while i < num_keys as usize
            invariant
                internal_readable::<K>(buf@),
                num_keys == leaf_num(buf@),
                config == internal_cfg::<K>(buf@),
                slot_key == K::slot_len(config),
                slot_key <= 65537,
                slot_size == slot_key + 4,
                start == internal_base::<K>(),
                start <= 40,
                i <= num_keys,
                entries@.len() == i,
                forall|j: int|
                    0 <= j < i ==> (#[trigger] entries@[j]).model() == internal_entry::<K>(
                        buf@,
                        config,
                        j,
                    ) && K::key_ok(entries@[j].key.kview(), config),
            decreases num_keys - i,
        {
            proof {
                let n = num_keys as int;
                assert(i * slot_size + slot_size <= n * slot_size && 0 <= i * slot_size)
                    by (nonlinear_arith)
                    requires
                        0 <= i < n,
                        slot_size >= 0,
                ;
            }
            let base: usize = start + i * slot_size;
            assert(base == internal_off::<K>(config, i as int));
            proof {
                K::lemma_slot_read(buf@.subrange(base as int, base + slot_key), config);
            }
            let key: K = K::read_key(&buf[base..base + slot_key], config);
            let child_page_id: u32 = get_u32(buf.as_slice(), base + slot_key);
            entries.push(InternalEntry { key, child_page_id });
            i = i + 1;
        }
        let r = InternalNode { page_id: header.page_id, num_keys, right_child, config, entries };
        assert(r.seps() =~= internal_entries::<K>(buf@));
        r
    }

    /// Serialises the internal node into a page buffer.
    pub fn to_bytes(&self) -> (r: Page)
        requires
            internal_fits::<K>(self.seps(), self.config),
        ensures
            r@ == internal_image::<K>(
                self.page_id,
                self.num_keys,
                self.right_child,
                self.config,
                self.seps(),
            ),
    {
        let mut v: Vec<u8> = PageHeader::new(self.page_id, PageType::BTreeInternal).to_vec();
        push_le(&mut v, self.num_keys as u128, 2);
        push_le(&mut v, self.right_child as u128, 4);
        let mut meta: Vec<u8> = K::write_config(self.config);
        v.append(&mut meta);
        let ghost head = v@;
        proof {
            assert(head =~= internal_head::<K>(
                self.page_id,
                self.num_keys,
                self.right_child,
                self.config,
            ));
            assert(internal_recs(self.seps()).take(0) =~= Seq::<(Seq<u8>, Seq<u8>)>::empty());
            assert(v@ =~= head + recs_image::<K>(internal_recs(self.seps()).take(0), self.config));
        }
        let mut i: usize = 0;
        while i < self.entries.len()
            invariant
                i <= self.entries@.len(),
                internal_fits::<K>(self.seps(), self.config),
                v@ == head + recs_image::<K>(
                    internal_recs(self.seps()).take(i as int),
                    self.config,
                ),
            decreases self.entries@.len() - i,
        {
            let ghost before = v@;
            let ghost recs = internal_recs(self.seps());
            assert(self.seps()[i as int] == self.entries@[i as int].model());
            let mut kb: Vec<u8> = self.entries[i].key.write_key(self.config);
            v.append(&mut kb);
            push_le(&mut v, self.entries[i].child_page_id as u128, 4);
            proof {
                assert(recs.take(i + 1).drop_last() =~= recs.take(i as int));
                assert(recs.take(i + 1).last() == recs[i as int]);
                assert(v@ =~= before + rec_image::<K>(recs[i as int], self.config));
                assert(v@ =~= head + recs_image::<K>(recs.take(i + 1), self.config));
            }
            i = i + 1;
        }
        proof {
            let recs = internal_recs(self.seps());
            assert(recs.take(i as int) =~= recs);
            lemma_internal_recs_ok::<K>(self.seps(), self.config);
            lemma_recs_len::<K>(recs, self.config, 4);
            lemma_header_len(PageHeader::fresh(self.page_id, PageType::BTreeInternal));
            lemma_le_bytes_len(self.num_keys as nat, 2);
            lemma_le_bytes_len(self.right_child as nat, 4);
            K::lemma_config(self.config);
        }
        pad_page(&v)
    }

    /// The index of the child whose subtree could contain `key`: the number
    /// of separators that are at most `key`.
    pub fn find_child_index(&self, key: &K) -> (r: usize)
        requires
            keys_sorted(self.keys()),
        ensures
            upper_bound(self.keys(), key.kview(), r as int),
    {
        let mut lo: usize = 0;
        let mut hi: usize = self.entries.len();
        let ghost ks = self.keys();
        let ghost k = key.kview();
        while lo < hi
            invariant
                ks == self.keys(),
                k == key.kview(),
                keys_sorted(ks),
                lo <= hi <= self.entries@.len(),
                forall|i: int| 0 <= i < lo ==> lex_le(#[trigger] ks[i], k),
                forall|i: int| hi <= i < ks.len() ==> lex_lt(k, #[trigger] ks[i]),
            decreases hi - lo,
        {
            let mid: usize = lo + (hi - lo) / 2;
            assert(ks[mid as int] == self.entries@[mid as int].key.kview());
            if key.key_lt(&self.entries[mid].key) {
                proof {
                    assert forall|i: int| mid <= i < ks.len() implies lex_lt(
                        k,
                        #[trigger] ks[i],
                    ) by {
                        if i > mid {
                            lemma_lex_transitive(k, ks[mid as int], ks[i]);
                        }
                    }
                }
                hi = mid;
            } else {
                proof {
                    lemma_lex_total(k, ks[mid as int]);
                    assert forall|i: int| 0 <= i < mid + 1 implies lex_le(#[trigger] ks[i], k) by {
                        if i < mid && lex_lt(ks[mid as int], k) {
                            lemma_lex_transitive(ks[i], ks[mid as int], k);
                        }
                    }
                }
                lo = mid + 1;
            }
        }
        lo
    }

    /// The child at an index.
    pub fn child_at(&self, child_idx: usize) -> (r: u32)
        requires
            child_idx <= self.entries@.len(),
        ensures
            r == self.kids()[child_idx as int],
    {
        if child_idx < self.entries.len() {
            self.entries[child_idx].child_page_id
        } else {
            self.right_child
        }
    }

    /// Returns the child page id for the subtree that could contain `key`.
    pub fn find_child(&self, key: &K) -> (r: u32)
        requires
            keys_sorted(self.keys()),
        ensures
            exists|p: int|
                upper_bound(self.keys(), key.kview(), p) && r == #[trigger] self.kids()[p],
    {
        let pos: usize = self.find_child_index(key);
        self.child_at(pos)
    }

    /// Inserts a separator key together with the page id of the new right
    /// child produced by a child split.
    pub fn insert_entry(&mut self, key: K, right_child_page_id: u32)
        requires
            keys_sorted(old(self).keys()),
            old(self).num_keys < u16::MAX,
        ensures
            final(self).page_id == old(self).page_id,
            final(self).config == old(self).config,
            final(self).num_keys == old(self).num_keys + 1,
            exists|p: int|
                {
                    &&& #[trigger] lower_bound(old(self).keys(), key.kview(), p)
                    &&& final(self).keys() == old(self).keys().insert(p, key.kview())
                    &&& final(self).kids() == old(self).kids().insert(p + 1, right_child_page_id)
                },
    {
        let pos: usize = self.lower_bound_of(&key);
        let ghost p = pos as int;
        let ghost k = key.kview();
        let ghost s0 = *self;
        if pos < self.entries.len() {
            let old_child: u32 = self.entries[pos].child_page_id;
            self.entries.insert(pos, InternalEntry { key, child_page_id: old_child });
            let moved: InternalEntry<K> = self.entries.remove(pos + 1);
            self.entries.insert(
                pos + 1,
                InternalEntry { key: moved.key, child_page_id: right_child_page_id },
            );
        } else {
            self.entries.push(InternalEntry { key, child_page_id: self.right_child });
            self.right_child = right_child_page_id;
        }
        self.num_keys = self.num_keys + 1;
        proof {
            assert(lower_bound(s0.keys(), k, p));
            assert(self.keys() =~= s0.keys().insert(p, k));
            assert(self.kids() =~= s0.kids().insert(p + 1, right_child_page_id));
        }
    }

    fn lower_bound_of(&self, key: &K) -> (r: usize)
        requires
            keys_sorted(self.keys()),
        ensures
            lower_bound(self.keys(), key.kview(), r as int),
    {
        let mut lo: usize = 0;
        let mut hi: usize = self.entries.len();
        let ghost ks = self.keys();
        let ghost k = key.kview();
        while lo < hi
            invariant
                ks == self.keys(),
                k == key.kview(),
                keys_sorted(ks),
                lo <= hi <= self.entries@.len(),
                forall|i: int| 0 <= i < lo ==> lex_lt(#[trigger] ks[i], k),
                forall|i: int| hi <= i < ks.len() ==> !lex_lt(#[trigger] ks[i], k),
            decreases hi - lo,
        {
            let mid: usize = lo + (hi - lo) / 2;
            assert(ks[mid as int] == self.entries@[mid as int].key.kview());
            if self.entries[mid].key.key_lt(key) {
                proof {
                    assert forall|i: int| 0 <= i < mid + 1 implies lex_lt(#[trigger] ks[i], k) by {
                        if i < mid {
                            lemma_lex_transitive(ks[i], ks[mid as int], k);
                        }
                    }
                }
                lo = mid + 1;
            } else {
                proof {
                    assert forall|i: int| mid <= i < ks.len() implies !lex_lt(
                        #[trigger] ks[i],
                        k,
                    ) by {
                        if i > mid && lex_lt(ks[i], k) {
                            lemma_lex_transitive(ks[mid as int], ks[i], k);
                        }
                    }
                }
                hi = mid;
            }
        }
        lo
    }

    /// True if the node is overfull and must be split.
    pub fn is_overfull(&self) -> (r: bool)
        ensures
            r == (self.num_keys > internal_cap::<K>(self.config)),
    {
        self.num_keys as usize > internal_max_keys::<K>(self.config)
    }

    /// True if the node is below the minimum occupancy threshold.
    pub fn is_underfull(&self) -> (r: bool)
        ensures
            r == (self.num_keys < internal_cap::<K>(self.config) * 40 / 100),
    {
        (self.num_keys as usize) < internal_min_keys::<K>(self.config)
    }
}

/// A B+Tree leaf node.
///
/// Leaves form a doubly-linked list (via `next_leaf` / `prev_leaf`) for fast
/// sequential range scans.
#[derive(Debug, Clone)]
pub struct LeafNode<K: Key> {
    pub page_id: u32,
    pub num_entries: u16,
    pub next_leaf: u32,
    pub prev_leaf: u32,
    pub config: K::Config,
    pub entries: Vec<LeafEntry<K>>,
}

impl<K: Key> LeafNode<K> {
    /// The entries.
    pub open spec fn model(&self) -> Seq<Entry> {
        entries_of(self.entries@)
    }

    /// The keys of the entries.
    pub open spec fn keys(&self) -> Seq<Seq<u8>> {
        entry_keys(self.model())
    }

    /// Creates a new empty leaf.
    pub fn new(page_id: u32, config: K::Config) -> (r: Self)
        ensures
            r.page_id == page_id,
            r.num_entries == 0,
            r.next_leaf == 0,
            r.prev_leaf == 0,
            r.config == config,
            r.entries@ == Seq::<LeafEntry<K>>::empty(),
    {
        LeafNode {
            page_id,
            num_entries: 0,
            next_leaf: 0,
            prev_leaf: 0,
            config,
            entries: Vec::new(),
        }
    }

    /// Deserialises a leaf from a page buffer.
    pub fn from_bytes(buf: &Page) -> (r: Self)
        requires
            leaf_readable::<K>(buf@),
        ensures
            r.page_id == PageHeader::parse(buf@).page_id,
            r.num_entries == leaf_num(buf@),
            r.next_leaf == field(buf@, 34, 4),
            r.prev_leaf == field(buf@, 38, 4),
            r.config == leaf_cfg::<K>(buf@),
            r.model() == leaf_entries::<K>(buf@),
            forall|i: int|
                0 <= i < r.entries@.len() ==> K::key_ok(
                    (#[trigger] r.entries@[i]).key.kview(),
                    r.config,
                ),
    {
        let header: PageHeader = PageHeader::read_from(buf);
        let num_entries: u16 = get_u16(buf.as_slice(), 32);
        let next_leaf: u32 = get_u32(buf.as_slice(), 34);
        let prev_leaf: u32 = get_u32(buf.as_slice(), 38);
        let meta: usize = K::node_meta_bytes();
        let config: K::Config = K::read_config(&buf[42..42 + meta]);
        let slot_key: usize = K::slot_key_size(config);
        let slot_size: usize = slot_key + 6;
        let start: usize = 42 + meta;
        let mut entries: Vec<LeafEntry<K>> = Vec::new();
        let mut i: usize = 0;
        while i < num_entries as usize
            invariant
                leaf_readable::<K>(buf@),
                num_entries == leaf_num(buf@),
                config == leaf_cfg::<K>(buf@),
                slot_key == K::slot_len(config),
                slot_key <= 65537,
                slot_size == slot_key + 6,
                start == leaf_base::<K>(),
                start <= 44,
                i <= num_entries,
                entries@.len() == i,
                forall|j: int|
                    0 <= j < i ==> (#[trigger] entries@[j]).model() == leaf_entry::<K>(
                        buf@,
                        config,
                        j,
                    ) && K::key_ok(entries@[j].key.kview(), config),
            decreases num_entries - i,
        {
            proof {
                let n = num_entries as int;
                assert(i * slot_size + slot_size <= n * slot_size && 0 <= i * slot_size)
                    by (nonlinear_arith)
                    requires
                        0 <= i < n,
                        slot_size >= 0,
                ;
            }
            let base: usize = start + i * slot_size;
            assert(base == leaf_off::<K>(config, i as int));
            proof {
                K::lemma_slot_read(buf@.subrange(base as int, base + slot_key), config);
            }
            let key: K = K::read_key(&buf[base..base + slot_key], config);
            let page_id: u32 = get_u32(buf.as_slice(), base + slot_key);
            let slot_id: u16 = get_u16(buf.as_slice(), base + slot_key + 4);
            entries.push(LeafEntry { key, page_id, slot_id });
            i = i + 1;
        }
        let r = LeafNode {
            page_id: header.page_id,
            num_entries,
            next_leaf,
            prev_leaf,
            config,
            entries,
        };
        assert(r.model() =~= leaf_entries::<K>(buf@));
        r
    }

    /// Serialises the leaf into a page buffer.
    pub fn to_bytes(&self) -> (r: Page)
        requires
            leaf_fits::<K>(self.model(), self.config),
        ensures
            r@ == leaf_image::<K>(
                self.page_id,
                self.num_entries,
                self.next_leaf,
                self.prev_leaf,
                self.config,
                self.model(),
            ),
    {
        let mut v: Vec<u8> = PageHeader::new(self.page_id, PageType::BTreeLeaf).to_vec();
        push_le(&mut v, self.num_entries as u128, 2);
        push_le(&mut v, self.next_leaf as u128, 4);
        push_le(&mut v, self.prev_leaf as u128, 4);
        let mut meta: Vec<u8> = K::write_config(self.config);
        v.append(&mut meta);
        let ghost head = v@;
        proof {
            assert(head =~= leaf_head::<K>(
                self.page_id,
                self.num_entries,
                self.next_leaf,
                self.prev_leaf,
                self.config,
            ));
            assert(leaf_recs(self.model()).take(0) =~= Seq::<(Seq<u8>, Seq<u8>)>::empty());
            assert(v@ =~= head + recs_image::<K>(leaf_recs(self.model()).take(0), self.config));
        }
        let mut i: usize = 0;
        while i < self.entries.len()
            invariant
                i <= self.entries@.len(),
                leaf_fits::<K>(self.model(), self.config),
                v@ == head + recs_image::<K>(leaf_recs(self.model()).take(i as int), self.config),
            decreases self.entries@.len() - i,
        {
            let ghost before = v@;
            let ghost recs = leaf_recs(self.model());
            assert(self.model()[i as int] == self.entries@[i as int].model());
            let mut kb: Vec<u8> = self.entries[i].key.write_key(self.config);
            v.append(&mut kb);
            push_le(&mut v, self.entries[i].page_id as u128, 4);
            push_le(&mut v, self.entries[i].slot_id as u128, 2);
            proof {
                assert(recs.take(i + 1).drop_last() =~= recs.take(i as int));
                assert(recs.take(i + 1).last() == recs[i as int]);
                assert(v@ =~= before + rec_image::<K>(recs[i as int], self.config));
                assert(v@ =~= head + recs_image::<K>(recs.take(i + 1), self.config));
            }
            i = i + 1;
        }
        proof {
            let recs = leaf_recs(self.model());
            assert(recs.take(i as int) =~= recs);
            lemma_leaf_recs_ok::<K>(self.model(), self.config);
            lemma_recs_len::<K>(recs, self.config, 6);
            lemma_leaf_head_len::<K>(
                self.page_id,
                self.num_entries,
                self.next_leaf,
                self.prev_leaf,
                self.config,
            );
        }
        pad_page(&v)
    }

    /// The number of entries with a key less than `key`.
    pub fn lower_bound_of(&self, key: &K) -> (r: usize)
        requires
            keys_sorted(self.keys()),
        ensures
            lower_bound(self.keys(), key.kview(), r as int),
    {
        let mut lo: usize = 0;
        let mut hi: usize = self.entries.len();
        let ghost ks = self.keys();
        let ghost k = key.kview();
        while lo < hi
            invariant
                ks == self.keys(),
                k == key.kview(),
                keys_sorted(ks),
                lo <= hi <= self.entries@.len(),
                forall|i: int| 0 <= i < lo ==> lex_lt(#[trigger] ks[i], k),
                forall|i: int| hi <= i < ks.len() ==> !lex_lt(#[trigger] ks[i], k),
            decreases hi - lo,
        {
            let mid: usize = lo + (hi - lo) / 2;
            assert(ks[mid as int] == self.entries@[mid as int].key.kview());
            if self.entries[mid].key.key_lt(key) {
                proof {
                    assert forall|i: int| 0 <= i < mid + 1 implies lex_lt(#[trigger] ks[i], k) by {
                        if i < mid {
                            lemma_lex_transitive(ks[i], ks[mid as int], k);
                        }
                    }
                }
                lo = mid + 1;
            } else {
                proof {
                    assert forall|i: int| mid <= i < ks.len() implies !lex_lt(
                        #[trigger] ks[i],
                        k,
                    ) by {
                        if i > mid && lex_lt(ks[i], k) {
                            lemma_lex_transitive(ks[mid as int], ks[i], k);
                        }
                    }
                }
                hi = mid;
            }
        }
        lo
    }

    /// Searches for `key`. Returns the entry index if found.
    pub fn search(&self, key: &K) -> (r: Option<usize>)
        requires
            keys_sorted(self.keys()),
        ensures
            match r {
                Some(i) => i < self.keys().len() && self.keys()[i as int] == key.kview(),
                None => forall|i: int|
                    0 <= i < self.keys().len() ==> #[trigger] self.keys()[i] != key.kview(),
            },
    {
        let pos: usize = self.lower_bound_of(key);
        let ghost ks = self.keys();
        let ghost k = key.kview();
        if pos < self.entries.len() && self.entries[pos].key.key_eq(key) {
            assert(ks[pos as int] == self.entries@[pos as int].key.kview());
            Some(pos)
        } else {
            proof {
                assert forall|i: int| 0 <= i < ks.len() implies #[trigger] ks[i] != k by {
                    lemma_lex_irreflexive(k);
                    if i == pos {
                        assert(ks[pos as int] == self.entries@[pos as int].key.kview());
                    } else if i > pos && ks[i] == k {
                        assert(lex_lt(ks[pos as int], ks[i]));
                    }
                }
            }
            None
        }
    }

    /// Inserts an entry in sorted order.
    pub fn insert_entry(&mut self, entry: LeafEntry<K>)
        requires
            keys_sorted(old(self).keys()),
            old(self).num_entries < u16::MAX,
        ensures
            final(self).page_id == old(self).page_id,
            final(self).config == old(self).config,
            final(self).next_leaf == old(self).next_leaf,
            final(self).prev_leaf == old(self).prev_leaf,
            final(self).num_entries == old(self).num_entries + 1,
            exists|p: int|
                {
                    &&& #[trigger] lower_bound(old(self).keys(), entry.key.kview(), p)
                    &&& final(self).entries@ == old(self).entries@.insert(p, entry)
                    &&& final(self).model() == old(self).model().insert(p, entry.model())
                },
    {
        let pos: usize = self.lower_bound_of(&entry.key);
        let ghost s0 = *self;
        let ghost e = entry;
        self.entries.insert(pos, entry);
        self.num_entries = self.num_entries + 1;
        proof {
            assert(lower_bound(s0.keys(), e.key.kview(), pos as int));
            assert(self.model() =~= s0.model().insert(pos as int, e.model()));
        }
    }

    /// Removes the entry with the given key. Returns the removed entry if
    /// found.
    pub fn remove_entry(&mut self, key: &K) -> (r: Option<LeafEntry<K>>)
        requires
            keys_sorted(old(self).keys()),
            old(self).num_entries == old(self).entries@.len(),
        ensures
            final(self).page_id == old(self).page_id,
            final(self).config == old(self).config,
            final(self).next_leaf == old(self).next_leaf,
            final(self).prev_leaf == old(self).prev_leaf,
            match r {
                Some(e) => {
                    &&& e.key.kview() == key.kview()
                    &&& final(self).num_entries == old(self).num_entries - 1
                    &&& exists|p: int|
                        {
                            &&& 0 <= p < old(self).entries@.len()
                            &&& e == #[trigger] old(self).entries@[p]
                            &&& final(self).entries@ == old(self).entries@.remove(p)
                            &&& final(self).model() == old(self).model().remove(p)
                        }
                },
                None => {
                    &&& *final(self) == *old(self)
                    &&& forall|i: int|
                        0 <= i < old(self).keys().len() ==> #[trigger] old(self).keys()[i]
                            != key.kview()
                },
            },
    {
        match self.search(key) {
            Some(idx) => {
                let ghost s0 = *self;
                self.num_entries = self.num_entries - 1;
                let e: LeafEntry<K> = self.entries.remove(idx);
                proof {
                    assert(s0.keys()[idx as int] == s0.entries@[idx as int].key.kview());
                    assert(e == s0.entries@[idx as int]);
                    assert(self.model() =~= s0.model().remove(idx as int));
                }
                Some(e)
            },
            None => None,
        }
    }

    /// True if the leaf is overfull and must be split.
    pub fn is_overfull(&self) -> (r: bool)
        ensures
            r == (self.num_entries > leaf_cap::<K>(self.config)),
    {
        self.num_entries as usize > leaf_max_entries::<K>(self.config)
    }

    /// True if the leaf is below the minimum occupancy threshold.
    pub fn is_underfull(&self) -> (r: bool)
        ensures
            r == (self.num_entries < leaf_cap::<K>(self.config) * 40 / 100),
    {
        (self.num_entries as usize) < leaf_min_entries::<K>(self.config)
    }
}

} // verus!
