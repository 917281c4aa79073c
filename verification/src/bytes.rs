//! Little- and big-endian integers as byte sequences, and byte-string order.

use vstd::prelude::*;

verus! {

/// `256` to the power `n`.
pub open spec fn pow256(n: nat) -> nat
    decreases n,
{
    if n == 0 {
        1
    } else {
        256 * pow256((n - 1) as nat)
    }
}

/// The `n` low bytes of `x`, least significant first.
pub open spec fn le_bytes(x: nat, n: nat) -> Seq<u8>
    decreases n,
{
    if n == 0 {
        Seq::empty()
    } else {
        seq![(x % 256) as u8] + le_bytes(x / 256, (n - 1) as nat)
    }
}

/// The number whose bytes are `s`, least significant first.
pub open spec fn le_val(s: Seq<u8>) -> nat
    decreases s.len(),
{
    if s.len() == 0 {
        0
    } else {
        (s[0] as nat + 256 * le_val(s.skip(1))) as nat
    }
}

/// The `n` low bytes of `x`, most significant first.
pub open spec fn be_bytes(x: nat, n: nat) -> Seq<u8>
    decreases n,
{
    if n == 0 {
        Seq::empty()
    } else {
        be_bytes(x / 256, (n - 1) as nat).push((x % 256) as u8)
    }
}

/// The number whose bytes are `s`, most significant first.
pub open spec fn be_val(s: Seq<u8>) -> nat
    decreases s.len(),
{
    if s.len() == 0 {
        0
    } else {
        (256 * be_val(s.drop_last()) + s.last() as nat) as nat
    }
}

/// `n` zero bytes.
pub open spec fn zeros(n: nat) -> Seq<u8> {
    Seq::new(n, |i: int| 0u8)
}

/// `s` with the bytes from `off` on overwritten by `t`.
pub open spec fn splice(s: Seq<u8>, off: int, t: Seq<u8>) -> Seq<u8> {
    Seq::new(
        s.len(),
        |i: int|
            if off <= i < off + t.len() {
                t[i - off]
            } else {
                s[i]
            },
    )
}

/// The little-endian number in the `n` bytes of `s` from `off` on.
pub open spec fn field(s: Seq<u8>, off: int, n: nat) -> nat {
    le_val(s.subrange(off, off + n))
}

/// Lexicographic order on byte strings; a proper prefix comes first.
pub open spec fn lex_lt(a: Seq<u8>, b: Seq<u8>) -> bool
    decreases a.len(),
{
    if b.len() == 0 {
        false
    } else if a.len() == 0 {
        true
    } else if a[0] != b[0] {
        a[0] < b[0]
    } else {
        lex_lt(a.skip(1), b.skip(1))
    }
}

/// `a` comes before `b` or is the same byte string.
pub open spec fn lex_le(a: Seq<u8>, b: Seq<u8>) -> bool {
    a == b || lex_lt(a, b)
}

// ── Lemmas ──────────────────────────────────────────────────────────────

pub proof fn lemma_pow256_values()
    ensures
        pow256(0) == 1,
        pow256(1) == 256,
        pow256(2) == 65536,
        pow256(4) == 0x1_0000_0000,
        pow256(8) == 0x1_0000_0000_0000_0000,
        pow256(16) == 0x1_0000_0000_0000_0000_0000_0000_0000_0000,
{
    reveal_with_fuel(pow256, 9);
    assert(pow256(8) == 0x1_0000_0000_0000_0000);
    assert(pow256(16) == 0x1_0000_0000_0000_0000_0000_0000_0000_0000) by {
        assert(pow256(9) == 256 * pow256(8));
        assert(pow256(10) == 256 * pow256(9));
        assert(pow256(11) == 256 * pow256(10));
        assert(pow256(12) == 256 * pow256(11));
        assert(pow256(13) == 256 * pow256(12));
        assert(pow256(14) == 256 * pow256(13));
        assert(pow256(15) == 256 * pow256(14));
        assert(pow256(16) == 256 * pow256(15));
    }
}

pub proof fn lemma_le_bytes_len(x: nat, n: nat)
    ensures
        le_bytes(x, n).len() == n,
    decreases n,
{
    if n > 0 {
        lemma_le_bytes_len(x / 256, (n - 1) as nat);
    }
}

/// Reading back little-endian bytes gives the number they were made from.
pub proof fn lemma_le_round_trip(x: nat, n: nat)
    requires
        x < pow256(n),
    ensures
        le_bytes(x, n).len() == n,
        le_val(le_bytes(x, n)) == x,
    decreases n,
{
    if n > 0 {
        lemma_le_round_trip(x / 256, (n - 1) as nat);
        assert(le_bytes(x, n).skip(1) =~= le_bytes(x / 256, (n - 1) as nat));
    }
}

/// A byte string is the little-endian form of the number it denotes.
pub proof fn lemma_le_val_bytes(s: Seq<u8>)
    ensures
        le_val(s) < pow256(s.len()),
        le_bytes(le_val(s), s.len()) == s,
    decreases s.len(),
{
    if s.len() > 0 {
        lemma_le_val_bytes(s.skip(1));
        let r: nat = le_val(s.skip(1));
        assert(le_val(s) % 256 == s[0] as nat);
        assert(le_val(s) / 256 == r);
        assert(le_bytes(le_val(s), s.len()) =~= s);
    } else {
        assert(le_bytes(le_val(s), s.len()) =~= s);
    }
}

pub proof fn lemma_be_bytes_len(x: nat, n: nat)
    ensures
        be_bytes(x, n).len() == n,
    decreases n,
{
    if n > 0 {
        lemma_be_bytes_len(x / 256, (n - 1) as nat);
    }
}

/// Reading back big-endian bytes gives the number they were made from.
pub proof fn lemma_be_round_trip(x: nat, n: nat)
    requires
        x < pow256(n),
    ensures
        be_bytes(x, n).len() == n,
        be_val(be_bytes(x, n)) == x,
    decreases n,
{
    if n > 0 {
        lemma_be_round_trip(x / 256, (n - 1) as nat);
        assert(be_bytes(x, n).drop_last() =~= be_bytes(x / 256, (n - 1) as nat));
    }
}

/// A byte string is the big-endian form of the number it denotes.
pub proof fn lemma_be_val_bytes(s: Seq<u8>)
    ensures
        be_val(s) < pow256(s.len()),
        be_bytes(be_val(s), s.len()) == s,
    decreases s.len(),
{
    if s.len() > 0 {
        lemma_be_val_bytes(s.drop_last());
        let r: nat = be_val(s.drop_last());
        assert(be_val(s) % 256 == s.last() as nat);
        assert(be_val(s) / 256 == r);
        assert(be_bytes(be_val(s), s.len()) =~= s);
    } else {
        assert(be_bytes(be_val(s), s.len()) =~= s);
    }
}

/// A field that was just overwritten reads back as written.
pub proof fn lemma_field_written(s: Seq<u8>, off: int, x: nat, n: nat)
    requires
        0 <= off,
        off + n <= s.len(),
        x < pow256(n),
    ensures
        field(splice(s, off, le_bytes(x, n)), off, n) == x,
{
    lemma_le_round_trip(x, n);
    assert(splice(s, off, le_bytes(x, n)).subrange(off, off + n) =~= le_bytes(x, n));
}

/// A field depends only on its own bytes.
pub proof fn lemma_field_frame(s: Seq<u8>, t: Seq<u8>, off: int, n: nat)
    requires
        0 <= off,
        off + n <= s.len(),
        off + n <= t.len(),
        forall|i: int| off <= i < off + n ==> s[i] == t[i],
    ensures
        field(s, off, n) == field(t, off, n),
{
    assert(s.subrange(off, off + n) =~= t.subrange(off, off + n));
}

pub proof fn lemma_field_bound(s: Seq<u8>, off: int, n: nat)
    requires
        0 <= off,
        off + n <= s.len(),
    ensures
        field(s, off, n) < pow256(n),
{
    lemma_le_val_bytes(s.subrange(off, off + n));
}

// ── Byte-string order ───────────────────────────────────────────────────

pub proof fn lemma_lex_irreflexive(a: Seq<u8>)
    ensures
        !lex_lt(a, a),
    decreases a.len(),
{
    if a.len() > 0 {
        lemma_lex_irreflexive(a.skip(1));
    }
}

pub proof fn lemma_lex_transitive(a: Seq<u8>, b: Seq<u8>, c: Seq<u8>)
    requires
        lex_lt(a, b),
        lex_lt(b, c),
    ensures
        lex_lt(a, c),
    decreases a.len(),
{
    if a.len() > 0 && b.len() > 0 && c.len() > 0 && a[0] == b[0] && b[0] == c[0] {
        lemma_lex_transitive(a.skip(1), b.skip(1), c.skip(1));
    }
}

pub proof fn lemma_lex_total(a: Seq<u8>, b: Seq<u8>)
    ensures
        a == b || lex_lt(a, b) || lex_lt(b, a),
    decreases a.len(),
{
    if a.len() > 0 && b.len() > 0 && a[0] == b[0] {
        lemma_lex_total(a.skip(1), b.skip(1));
        if a.skip(1) == b.skip(1) {
            assert(a =~= seq![a[0]] + a.skip(1));
            assert(b =~= seq![b[0]] + b.skip(1));
        }
    } else if a.len() == 0 && b.len() == 0 {
        assert(a =~= b);
    }
}

pub proof fn lemma_lex_asymmetric(a: Seq<u8>, b: Seq<u8>)
    requires
        lex_lt(a, b),
    ensures
        !lex_lt(b, a),
        a != b,
{
    if lex_lt(b, a) {
        lemma_lex_transitive(a, b, a);
    }
    lemma_lex_irreflexive(a);
}

/// With a common prefix of length `n`, the order is that of the remainders.
pub proof fn lemma_lex_common_prefix(a: Seq<u8>, b: Seq<u8>, n: nat)
    requires
        n <= a.len(),
        n <= b.len(),
        a.take(n as int) == b.take(n as int),
    ensures
        lex_lt(a, b) == lex_lt(a.skip(n as int), b.skip(n as int)),
    decreases n,
{
    if n == 0 {
        assert(a.skip(0) =~= a);
        assert(b.skip(0) =~= b);
    } else {
        assert(a[0] == a.take(n as int)[0]);
        assert(b[0] == b.take(n as int)[0]);
        assert(a.skip(1).take(n - 1) =~= a.take(n as int).skip(1));
        assert(b.skip(1).take(n - 1) =~= b.take(n as int).skip(1));
        lemma_lex_common_prefix(a.skip(1), b.skip(1), (n - 1) as nat);
        assert(a.skip(1).skip(n - 1) =~= a.skip(n as int));
        assert(b.skip(1).skip(n - 1) =~= b.skip(n as int));
    }
}

/// On strings of one length, the last byte decides only between equal fronts.
pub proof fn lemma_lex_push(a: Seq<u8>, b: Seq<u8>, c: u8, d: u8)
    requires
        a.len() == b.len(),
    ensures
        lex_lt(a.push(c), b.push(d)) == (lex_lt(a, b) || (a == b && c < d)),
    decreases a.len(),
{
    reveal_with_fuel(lex_lt, 2);
    if a.len() > 0 {
        if a[0] != b[0] {
            assert(a != b);
        } else {
            lemma_lex_push(a.skip(1), b.skip(1), c, d);
            assert(a.push(c).skip(1) =~= a.skip(1).push(c));
            assert(b.push(d).skip(1) =~= b.skip(1).push(d));
            assert(a =~= seq![a[0]] + a.skip(1));
            assert(b =~= seq![b[0]] + b.skip(1));
            assert((a == b) == (a.skip(1) == b.skip(1)));
        }
    } else {
        assert(a =~= b);
        assert(a.push(c).skip(1) =~= Seq::<u8>::empty());
        assert(b.push(d).skip(1) =~= Seq::<u8>::empty());
        assert(a.push(c)[0] == c);
        assert(b.push(d)[0] == d);
    }
}

/// Big-endian bytes of one width are ordered as the numbers are.
pub proof fn lemma_be_order(x: nat, y: nat, n: nat)
    requires
        x < pow256(n),
        y < pow256(n),
    ensures
        lex_lt(be_bytes(x, n), be_bytes(y, n)) == (x < y),
    decreases n,
{
    if n > 0 {
        lemma_be_order(x / 256, y / 256, (n - 1) as nat);
        lemma_be_bytes_len(x / 256, (n - 1) as nat);
        lemma_be_bytes_len(y / 256, (n - 1) as nat);
        lemma_be_round_trip(x / 256, (n - 1) as nat);
        lemma_be_round_trip(y / 256, (n - 1) as nat);
        lemma_lex_push(
            be_bytes(x / 256, (n - 1) as nat),
            be_bytes(y / 256, (n - 1) as nat),
            (x % 256) as u8,
            (y % 256) as u8,
        );
    }
}

// ── Executable helpers ──────────────────────────────────────────────────

/// The bytes of `x`, least significant first.
pub fn u16_le(x: u16) -> (r: [u8; 2])
    ensures
        r@ == le_bytes(x as nat, 2),
{
    proof {
        reveal_with_fuel(le_bytes, 3);
    }
    let r = [(x % 256) as u8, (x / 256) as u8];
    assert(r@ =~= le_bytes(x as nat, 2));
    r
}

/// The bytes of `x`, least significant first.
pub fn u32_le(x: u32) -> (r: [u8; 4])
    ensures
        r@ == le_bytes(x as nat, 4),
{
    proof {
        reveal_with_fuel(le_bytes, 5);
    }
    let a: u32 = x / 256;
    let b: u32 = a / 256;
    let c: u32 = b / 256;
    let r = [(x % 256) as u8, (a % 256) as u8, (b % 256) as u8, c as u8];
    assert(r@ =~= le_bytes(x as nat, 4));
    r
}

/// The bytes of `x`, least significant first.
pub fn u64_le(x: u64) -> (r: [u8; 8])
    ensures
        r@ == le_bytes(x as nat, 8),
{
    proof {
        reveal_with_fuel(le_bytes, 9);
    }
    let a: u64 = x / 256;
    let b: u64 = a / 256;
    let c: u64 = b / 256;
    let d: u64 = c / 256;
    let e: u64 = d / 256;
    let f: u64 = e / 256;
    let g: u64 = f / 256;
    let r = [
        (x % 256) as u8,
        (a % 256) as u8,
        (b % 256) as u8,
        (c % 256) as u8,
        (d % 256) as u8,
        (e % 256) as u8,
        (f % 256) as u8,
        g as u8,
    ];
    assert(r@ =~= le_bytes(x as nat, 8));
    r
}

/// Appends the `n` low bytes of `x`, least significant first.
pub fn push_le(v: &mut Vec<u8>, x: u128, n: usize)
    ensures
        final(v)@ == old(v)@ + le_bytes(x as nat, n as nat),
{
    let ghost v0 = v@;
    let mut rest: u128 = x;
    let mut i: usize = 0;
    proof {
        assert(v@ + le_bytes(x as nat, n as nat) =~= v0 + le_bytes(x as nat, n as nat));
    }
    while i < n
        invariant
            i <= n,
            v@ + le_bytes(rest as nat, (n - i) as nat) == v0 + le_bytes(x as nat, n as nat),
        decreases n - i,
    {
        let b: u8 = (rest % 256) as u8;
        let ghost before = v@;
        v.push(b);
        proof {
            assert(v@ + le_bytes(rest as nat / 256, (n - i - 1) as nat) =~= before + le_bytes(
                rest as nat,
                (n - i) as nat,
            ));
        }
        rest = rest / 256;
        i = i + 1;
    }
    proof {
        assert(v@ + le_bytes(rest as nat, 0) =~= v@);
    }
}

/// Appends the `n` low bytes of `x`, most significant first.
pub fn push_be(v: &mut Vec<u8>, x: u128, n: usize)
    requires
        n <= 16,
    ensures
        final(v)@ == old(v)@ + be_bytes(x as nat, n as nat),
    decreases n,
{
    if n == 0 {
        assert(v@ + be_bytes(x as nat, 0) =~= v@);
    } else {
        let ghost v0 = v@;
        push_be(v, x / 256, n - 1);
        v.push((x % 256) as u8);
        assert(v@ =~= v0 + be_bytes(x as nat, n as nat));
    }
}

/// The number in the `n` bytes of `s` from `off` on, least significant first.
pub fn get_le(s: &[u8], off: usize, n: usize) -> (r: u128)
    requires
        off + n <= s@.len(),
        n <= 16,
    ensures
        r == field(s@, off as int, n as nat),
        r < pow256(n as nat),
    decreases n,
{
    proof {
        lemma_pow256_values();
        lemma_field_bound(s@, off as int, n as nat);
    }
    if n == 0 {
        0
    } else {
        assert(s.len() == s@.len());
        let rest: u128 = get_le(s, off + 1, n - 1);
        proof {
            let sub = s@.subrange(off as int, off + n);
            assert(sub.skip(1) =~= s@.subrange(off + 1, off + n));
            lemma_pow256_mono(n as nat, 16);
        }
        s[off] as u128 + 256 * rest
    }
}

pub proof fn lemma_pow256_mono(m: nat, n: nat)
    requires
        m <= n,
    ensures
        pow256(m) <= pow256(n),
    decreases n,
{
    if m < n {
        lemma_pow256_mono(m, (n - 1) as nat);
    }
}

/// The two-byte little-endian number at `off`.
pub fn get_u16(s: &[u8], off: usize) -> (r: u16)
    requires
        off + 2 <= s@.len(),
    ensures
        r == field(s@, off as int, 2),
{
    proof {
        lemma_pow256_values();
    }
    get_le(s, off, 2) as u16
}

/// The four-byte little-endian number at `off`.
pub fn get_u32(s: &[u8], off: usize) -> (r: u32)
    requires
        off + 4 <= s@.len(),
    ensures
        r == field(s@, off as int, 4),
{
    proof {
        lemma_pow256_values();
    }
    get_le(s, off, 4) as u32
}

/// The eight-byte little-endian number at `off`.
pub fn get_u64(s: &[u8], off: usize) -> (r: u64)
    requires
        off + 8 <= s@.len(),
    ensures
        r == field(s@, off as int, 8),
{
    proof {
        lemma_pow256_values();
    }
    get_le(s, off, 8) as u64
}

/// The big-endian number denoted by `s`.
pub fn get_be(s: &[u8]) -> (r: u128)
    requires
        s@.len() <= 16,
    ensures
        r == be_val(s@),
{
    let mut r: u128 = 0;
    let mut i: usize = 0;
    proof {
        lemma_pow256_values();
    }
    while i < s.len()
        invariant
            i <= s@.len(),
            s@.len() <= 16,
            r == be_val(s@.take(i as int)),
            pow256(16) == 0x1_0000_0000_0000_0000_0000_0000_0000_0000,
        decreases s@.len() - i,
    {
        proof {
            let t = s@.take(i + 1);
            assert(t.drop_last() =~= s@.take(i as int));
            lemma_be_val_bytes(t);
            lemma_pow256_mono((i + 1) as nat, 16);
        }
        r = 256 * r + s[i] as u128;
        i = i + 1;
    }
    assert(s@.take(i as int) =~= s@);
    r
}

/// Lexicographic comparison of two byte strings.
pub fn bytes_lt(a: &[u8], b: &[u8]) -> (r: bool)
    ensures
        r == lex_lt(a@, b@),
{
    let mut i: usize = 0;
    while i < a.len() && i < b.len() && a[i] == b[i]
        invariant
            i <= a@.len(),
            i <= b@.len(),
            a@.take(i as int) == b@.take(i as int),
        decreases a@.len() - i,
    {
        proof {
            assert(a@.take(i + 1) =~= a@.take(i as int).push(a@[i as int]));
            assert(b@.take(i + 1) =~= b@.take(i as int).push(b@[i as int]));
        }
        i = i + 1;
    }
    proof {
        lemma_lex_common_prefix(a@, b@, i as nat);
    }
    if i >= b.len() {
        false
    } else if i >= a.len() {
        true
    } else {
        a[i] < b[i]
    }
}

/// Whether two byte strings are the same.
pub fn bytes_eq(a: &[u8], b: &[u8]) -> (r: bool)
    ensures
        r == (a@ == b@),
{
    if a.len() != b.len() {
        return false;
    }
    let mut i: usize = 0;
    while i < a.len()
        invariant
            a@.len() == b@.len(),
            i <= a@.len(),
            forall|j: int| 0 <= j < i ==> a@[j] == b@[j],
        decreases a@.len() - i,
    {
        if a[i] != b[i] {
            return false;
        }
        i = i + 1;
    }
    assert(a@ =~= b@);
    true
}

/// A fresh copy of a byte string.
pub fn to_vec(a: &[u8]) -> (r: Vec<u8>)
    ensures
        r@ == a@,
{
    let mut v: Vec<u8> = Vec::with_capacity(a.len());
    v.extend_from_slice(a);
    assert(v@ =~= a@);
    v
}

// ── Laws ────────────────────────────────────────────────────────────────

/// The order of byte strings is decided where they first differ, or by their
/// ends where one continues the other.
pub proof fn law_first_difference_decides(a: Seq<u8>, b: Seq<u8>, n: int)
    requires
        0 <= n <= a.len(),
        n <= b.len(),
        forall|i: int| 0 <= i < n ==> #[trigger] a[i] == b[i],
    ensures
        n < a.len() && n < b.len() && a[n] != b[n] ==> lex_lt(a, b) == (a[n] < b[n]),
        n == a.len() ==> lex_lt(a, b) == (a.len() < b.len()),
        n == b.len() ==> !lex_lt(a, b),
{
    assert(a.take(n) =~= b.take(n));
    lemma_lex_common_prefix(a, b, n as nat);
    let (x, y) = (a.skip(n), b.skip(n));
    if n < a.len() && n < b.len() {
        assert(x[0] == a[n] && y[0] == b[n]);
    }
}

/// The bytes of a number are its digits to the base 256, in either order.
pub proof fn law_bytes_are_digits(x: nat, n: nat, i: int)
    requires
        0 <= i < n,
    ensures
        le_bytes(x, n).len() == n,
        be_bytes(x, n).len() == n,
        le_bytes(x, n)[i] == (x / pow256(i as nat)) % 256,
        be_bytes(x, n)[n - 1 - i] == (x / pow256(i as nat)) % 256,
    decreases n,
{
    lemma_le_bytes_len(x, n);
    lemma_be_bytes_len(x, n);
    let m = (n - 1) as nat;
    lemma_le_bytes_len(x / 256, m);
    lemma_be_bytes_len(x / 256, m);
    if i > 0 {
        law_bytes_are_digits(x / 256, m, i - 1);
        let p = pow256((i - 1) as nat);
        lemma_pow256_positive((i - 1) as nat);
        assert(pow256(i as nat) == 256 * p);
        assert((x / 256) / p == x / (256 * p)) by (nonlinear_arith)
            requires
                p > 0,
        ;
        assert(le_bytes(x, n)[i] == le_bytes(x / 256, m)[i - 1]);
        assert(be_bytes(x, n)[n - 1 - i] == be_bytes(x / 256, m)[m - 1 - (i - 1)]);
        assert(x / pow256(i as nat) == (x / 256) / p);
    } else {
        assert(pow256(0) == 1);
        assert(x / pow256(0) == x);
        assert(le_bytes(x, n)[0] == (x % 256) as u8);
        assert(be_bytes(x, n)[n - 1] == (x % 256) as u8);
    }
}

proof fn lemma_pow256_positive(n: nat)
    ensures
        pow256(n) > 0,
    decreases n,
{
    if n > 0 {
        lemma_pow256_positive((n - 1) as nat);
    }
}

} // verus!
