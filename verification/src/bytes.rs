//! Small verified helpers on byte vectors.
//!
//! The library keeps names, payloads and documents as `Vec<u8>` so that every
//! transformation on them can be stated over `Seq<u8>` views.

use vstd::prelude::*;

verus! {

/// True iff the two byte vectors hold the same bytes.
pub fn bytes_eq(a: &Vec<u8>, b: &Vec<u8>) -> (r: bool)
    ensures
        r <==> a@ == b@,
{
    if a.len() != b.len() {
        assert(a@ != b@);
        return false;
    }
    let n = a.len();
    let mut i: usize = 0;
    while i < n
        invariant
            n == a@.len() == b@.len(),
            i <= n,
            forall|j: int| 0 <= j < i ==> a@[j] == b@[j],
        decreases n - i,
    {
        if a[i] != b[i] {
            return false;
        }
        i += 1;
    }
    assert(a@ =~= b@);
    true
}

/// Appends all of `src` to `dst`.
pub fn push_all(dst: &mut Vec<u8>, src: &Vec<u8>)
    ensures
        final(dst)@ == old(dst)@ + src@,
{
    let n = src.len();
    let mut i: usize = 0;
    while i < n
        invariant
            n == src@.len(),
            i <= n,
            dst@ == old(dst)@ + src@.subrange(0, i as int),
        decreases n - i,
    {
        dst.push(src[i]);
        assert(old(dst)@ + src@.subrange(0, i as int) + seq![src@[i as int]]
            =~= old(dst)@ + src@.subrange(0, i + 1));
        i += 1;
    }
    assert(src@.subrange(0, n as int) =~= src@);
}

/// Copies a byte vector.
pub fn clone_bytes(v: &Vec<u8>) -> (r: Vec<u8>)
    ensures
        r@ == v@,
{
    let mut c: Vec<u8> = Vec::new();
    push_all(&mut c, v);
    proof {
        assert(c@ =~= v@);
    }
    c
}

/// The sequence view of an optional byte vector.
pub open spec fn opt_view(o: Option<Vec<u8>>) -> Option<Seq<u8>> {
    match o {
        Some(v) => Some(v@),
        None => None,
    }
}

/// The sequence views of a list of optional byte vectors.
pub open spec fn opt_seq_view(s: Seq<Option<Vec<u8>>>) -> Seq<Option<Seq<u8>>> {
    s.map_values(|o: Option<Vec<u8>>| opt_view(o))
}

/// ASCII lowercasing of one byte.
pub open spec fn ascii_lower(b: u8) -> u8 {
    if 'A' as u8 <= b <= 'Z' as u8 {
        (b + 32) as u8
    } else {
        b
    }
}

/// ASCII lowercasing of a byte sequence.
pub open spec fn lower(s: Seq<u8>) -> Seq<u8> {
    s.map_values(|b: u8| ascii_lower(b))
}

/// True iff the ASCII-lowercased `a` ends with `suffix`.
pub fn ends_with_lower(a: &Vec<u8>, suffix: &Vec<u8>) -> (r: bool)
    ensures
        r <==> suffix@.is_suffix_of(lower(a@)),
{
    let n = a.len();
    let m = suffix.len();
    if m > n {
        return false;
    }
    let mut i: usize = 0;
    while i < m
        invariant
            i <= m <= n,
            n == a@.len(),
            m == suffix@.len(),
            forall|j: int| 0 <= j < i ==> lower(a@)[n - m + j] == suffix@[j],
        decreases m - i,
    {
        let b = a[n - m + i];
        let lb = if 'A' as u8 <= b && b <= 'Z' as u8 { b + 32 } else { b };
        assert(lb == lower(a@)[n - m + i as int]);
        if lb != suffix[i] {
            assert(!suffix@.is_suffix_of(lower(a@)));
            return false;
        }
        i += 1;
    }
    assert(suffix@ =~= lower(a@).subrange(n - m, n as int));
    true
}

/// The decimal digits of `n`, most significant first.
pub open spec fn spec_dec(n: nat) -> Seq<u8>
    decreases n,
{
    if n < 10 {
        seq![(48 + n) as u8]
    } else {
        spec_dec(n / 10) + seq![(48 + n % 10) as u8]
    }
}

/// Renders `n` in decimal.
pub fn dec_u32(n: u32) -> (r: Vec<u8>)
    ensures
        r@ == spec_dec(n as nat),
    decreases n,
{
    if n < 10 {
        let mut r: Vec<u8> = Vec::new();
        r.push(48 + n as u8);
        assert(r@ =~= seq![(48 + n) as u8]);
        r
    } else {
        let mut r = dec_u32(n / 10);
        r.push(48 + (n % 10) as u8);
        assert(r@ =~= spec_dec((n / 10) as nat) + seq![(48 + n % 10) as u8]);
        r
    }
}

/// The decimal rendering of a signed number: a `-` sign, then the digits.
pub open spec fn spec_dec_i32(n: int) -> Seq<u8> {
    if n >= 0 {
        spec_dec(n as nat)
    } else {
        seq!['-' as u8] + spec_dec((-n) as nat)
    }
}

/// Renders `n` in decimal, with a leading `-` when negative.
pub fn dec_i32(n: i32) -> (r: Vec<u8>)
    ensures
        r@ == spec_dec_i32(n as int),
{
    if n >= 0 {
        dec_u32(n as u32)
    } else {
        let mag: u32 = (-(n as i64)) as u32;
        let mut r: Vec<u8> = Vec::new();
        r.push('-' as u8);
        let digits = dec_u32(mag);
        push_all(&mut r, &digits);
        assert(r@ =~= seq!['-' as u8] + spec_dec(mag as nat));
        r
    }
}

/// True iff `p` is a prefix of `a`.
pub fn starts_with(a: &Vec<u8>, p: &Vec<u8>) -> (r: bool)
    ensures
        r <==> p@.is_prefix_of(a@),
{
    if p.len() > a.len() {
        return false;
    }
    let n = p.len();
    let mut i: usize = 0;
    while i < n
        invariant
            n == p@.len() <= a@.len(),
            i <= n,
            forall|j: int| 0 <= j < i ==> a@[j] == p@[j],
        decreases n - i,
    {
        if a[i] != p[i] {
            assert(!p@.is_prefix_of(a@));
            return false;
        }
        i += 1;
    }
    assert(p@ =~= a@.subrange(0, n as int));
    true
}

/// Lowercases a byte vector, ASCII-wise.
pub fn lower_bytes(v: &Vec<u8>) -> (r: Vec<u8>)
    ensures
        r@ == lower(v@),
{
    let n = v.len();
    let mut r: Vec<u8> = Vec::new();
    let mut i: usize = 0;
    while i < n
        invariant
            i <= n == v@.len(),
            r@.len() == i,
            forall|j: int| 0 <= j < i ==> r@[j] == ascii_lower(v@[j]),
        decreases n - i,
    {
        let b = v[i];
        let lb = if 'A' as u8 <= b && b <= 'Z' as u8 { b + 32 } else { b };
        r.push(lb);
        i += 1;
    }
    proof {
        assert(r@ =~= lower(v@));
    }
    r
}

/// Byte-wise lexicographic order: the order `Ord` gives byte strings.
pub open spec fn lex_le(a: Seq<u8>, b: Seq<u8>) -> bool
    decreases a.len(),
{
    if a.len() == 0 {
        true
    } else if b.len() == 0 {
        false
    } else if a.first() < b.first() {
        true
    } else if a.first() > b.first() {
        false
    } else {
        lex_le(a.drop_first(), b.drop_first())
    }
}

/// The order is total.
pub proof fn lemma_lex_total(a: Seq<u8>, b: Seq<u8>)
    ensures
        lex_le(a, b) || lex_le(b, a),
    decreases a.len(),
{
    if a.len() > 0 && b.len() > 0 && a.first() == b.first() {
        lemma_lex_total(a.drop_first(), b.drop_first());
    }
}

/// The order is reflexive.
pub proof fn lemma_lex_refl(a: Seq<u8>)
    ensures
        lex_le(a, a),
    decreases a.len(),
{
    if a.len() > 0 {
        lemma_lex_refl(a.drop_first());
    }
}

/// The order is antisymmetric.
pub proof fn lemma_lex_antisym(a: Seq<u8>, b: Seq<u8>)
    requires
        lex_le(a, b),
        lex_le(b, a),
    ensures
        a == b,
    decreases a.len(),
{
    if a.len() > 0 && b.len() > 0 && a.first() == b.first() {
        lemma_lex_antisym(a.drop_first(), b.drop_first());
        assert(a =~= seq![a.first()] + a.drop_first());
        assert(b =~= seq![b.first()] + b.drop_first());
    } else {
        if a.len() == 0 {
            assert(b.len() == 0);
            assert(a =~= b);
        }
    }
}

/// The order is transitive.
pub proof fn lemma_lex_trans(a: Seq<u8>, b: Seq<u8>, c: Seq<u8>)
    requires
        lex_le(a, b),
        lex_le(b, c),
    ensures
        lex_le(a, c),
    decreases a.len(),
{
    if a.len() > 0 && b.len() > 0 && c.len() > 0 && a.first() == b.first() && b.first()
        == c.first() {
        lemma_lex_trans(a.drop_first(), b.drop_first(), c.drop_first());
    }
}

/// Decides the lexicographic order.
pub fn lex_le_bytes(a: &Vec<u8>, b: &Vec<u8>) -> (r: bool)
    ensures
        r <==> lex_le(a@, b@),
{
    let an = a.len();
    let bn = b.len();
    let mut i: usize = 0;
    proof {
        assert(a@.subrange(0, an as int) =~= a@);
        assert(b@.subrange(0, bn as int) =~= b@);
    }
    while i < an && i < bn
        invariant
            i <= an == a@.len(),
            i <= bn == b@.len(),
            lex_le(a@, b@) == lex_le(
                a@.subrange(i as int, an as int),
                b@.subrange(i as int, bn as int),
            ),
            lex_le(b@, a@) == lex_le(
                b@.subrange(i as int, bn as int),
                a@.subrange(i as int, an as int),
            ),
            forall|j: int| 0 <= j < i ==> a@[j] == b@[j],
        decreases an - i,
    {
        let x = a[i];
        let y = b[i];
        proof {
            let at = a@.subrange(i as int, an as int);
            let bt = b@.subrange(i as int, bn as int);
            assert(at.first() == x && bt.first() == y);
            assert(at.drop_first() =~= a@.subrange(i + 1, an as int));
            assert(bt.drop_first() =~= b@.subrange(i + 1, bn as int));
        }
        if x < y {
            return true;
        }
        if x > y {
            return false;
        }
        i += 1;
    }
    proof {
        let at = a@.subrange(i as int, an as int);
        let bt = b@.subrange(i as int, bn as int);
        if i >= an {
            assert(at.len() == 0);
            assert(lex_le(at, bt));
        } else {
            assert(bt.len() == 0 && at.len() > 0);
            assert(!lex_le(at, bt));
        }
    }
    an <= bn
}

} // verus!
