//! The order in which a canonical combination keeps its entries: by the
//! option's name, then by the amount.

use vstd::prelude::*;
use vstd::utf8::{encode_utf8, encode_utf8_decode_utf8};
use crate::model::Pick;

verus! {

/// `a` comes strictly before `b` when the two are read byte by byte: the
/// first byte in which they differ is the smaller one in `a`, or `a` ends
/// first.
pub open spec fn bytes_precede(a: Seq<u8>, b: Seq<u8>) -> bool
    decreases a.len(),
{
    if b.len() == 0 {
        false
    } else if a.len() == 0 {
        true
    } else if a[0] != b[0] {
        a[0] < b[0]
    } else {
        bytes_precede(a.drop_first(), b.drop_first())
    }
}

/// Name `a` comes strictly before name `b`: as strings do, by the bytes of
/// their UTF-8 form.
pub open spec fn name_precedes(a: Seq<char>, b: Seq<char>) -> bool {
    bytes_precede(encode_utf8(a), encode_utf8(b))
}

/// `p` comes strictly before `q`: by name, and by amount under one name.
pub open spec fn pick_precedes(p: Pick, q: Pick) -> bool {
    name_precedes(p.opt.name, q.opt.name) || (p.opt.name == q.opt.name && p.amount < q.amount)
}

/// No entry of `picks` comes strictly before an earlier one.
pub open spec fn canonical(picks: Seq<Pick>) -> bool {
    forall|i: int, j: int|
        0 <= i < j < picks.len() ==> !pick_precedes(#[trigger] picks[j], #[trigger] picks[i])
}

/// The first index of `picks` whose entry `p` comes strictly before, or the
/// length of `picks` where there is none.
pub open spec fn insertion_index(picks: Seq<Pick>, p: Pick) -> int
    decreases picks.len(),
{
    if picks.len() == 0 {
        0
    } else if pick_precedes(p, picks.first()) {
        0
    } else {
        1 + insertion_index(picks.drop_first(), p)
    }
}

/// `picks` with `p` put at its insertion index.
pub open spec fn with_pick(picks: Seq<Pick>, p: Pick) -> Seq<Pick> {
    picks.insert(insertion_index(picks, p), p)
}

/// What the order looks at in an entry: the name and the amount.
pub open spec fn key_of(p: Pick) -> (Seq<char>, nat) {
    (p.opt.name, p.amount)
}

/// The names and amounts of a combination, place by place.
pub open spec fn keys(picks: Seq<Pick>) -> Seq<(Seq<char>, nat)> {
    Seq::new(picks.len(), |k: int| key_of(picks[k]))
}

/// Two combinations that hold, place by place, the same amounts under the
/// same names.
pub open spec fn same_entries(a: Seq<Pick>, b: Seq<Pick>) -> bool {
    &&& a.len() == b.len()
    &&& forall|k: int|
        0 <= k < a.len() ==> (#[trigger] a[k]).opt.name == (#[trigger] b[k]).opt.name && a[k].amount
            == b[k].amount
}

/// No byte string comes before itself.
pub proof fn lemma_bytes_irreflexive(a: Seq<u8>)
    ensures
        !bytes_precede(a, a),
    decreases a.len(),
{
    if a.len() > 0 {
        lemma_bytes_irreflexive(a.drop_first());
    }
}

/// What comes before an earlier byte string comes before the later one.
pub proof fn lemma_bytes_transitive(a: Seq<u8>, b: Seq<u8>, c: Seq<u8>)
    requires
        bytes_precede(a, b),
        bytes_precede(b, c),
    ensures
        bytes_precede(a, c),
    decreases a.len(),
{
    if a.len() > 0 && a[0] == b[0] && b[0] == c[0] {
        lemma_bytes_transitive(a.drop_first(), b.drop_first(), c.drop_first());
    }
}

/// Of two different byte strings, one comes before the other.
pub proof fn lemma_bytes_total(a: Seq<u8>, b: Seq<u8>)
    ensures
        a == b || bytes_precede(a, b) || bytes_precede(b, a),
    decreases a.len(),
{
    if a.len() > 0 && b.len() > 0 {
        if a[0] == b[0] {
            lemma_bytes_total(a.drop_first(), b.drop_first());
            if a.drop_first() == b.drop_first() {
                assert(a =~= seq![a[0]] + a.drop_first());
                assert(b =~= seq![b[0]] + b.drop_first());
            }
        }
    } else if a.len() == 0 && b.len() == 0 {
        assert(a =~= b);
    }
}

/// Two byte strings that agree in their first `k` bytes compare as what
/// follows those bytes.
pub proof fn lemma_bytes_common_prefix(a: Seq<u8>, b: Seq<u8>, k: int)
    requires
        0 <= k <= a.len(),
        k <= b.len(),
        forall|i: int| 0 <= i < k ==> a[i] == b[i],
    ensures
        bytes_precede(a, b) == bytes_precede(a.skip(k), b.skip(k)),
    decreases k,
{
    if k == 0 {
        assert(a.skip(0) =~= a);
        assert(b.skip(0) =~= b);
    } else {
        assert(a[0] == b[0]);
        let x = a.drop_first();
        let y = b.drop_first();
        assert forall|i: int| 0 <= i < k - 1 implies x[i] == y[i] by {
            assert(a[i + 1] == b[i + 1]);
        }
        lemma_bytes_common_prefix(x, y, k - 1);
        assert(x.skip(k - 1) =~= a.skip(k));
        assert(y.skip(k - 1) =~= b.skip(k));
    }
}

/// No name comes before itself.
pub proof fn lemma_name_irreflexive(a: Seq<char>)
    ensures
        !name_precedes(a, a),
{
    lemma_bytes_irreflexive(encode_utf8(a));
}

/// What comes before an earlier name comes before the later one.
pub proof fn lemma_name_transitive(a: Seq<char>, b: Seq<char>, c: Seq<char>)
    requires
        name_precedes(a, b),
        name_precedes(b, c),
    ensures
        name_precedes(a, c),
{
    lemma_bytes_transitive(encode_utf8(a), encode_utf8(b), encode_utf8(c));
}

/// Of two different names, one comes before the other.
pub proof fn lemma_name_total(a: Seq<char>, b: Seq<char>)
    ensures
        a == b || name_precedes(a, b) || name_precedes(b, a),
{
    lemma_bytes_total(encode_utf8(a), encode_utf8(b));
    if encode_utf8(a) == encode_utf8(b) {
        encode_utf8_decode_utf8(a);
        encode_utf8_decode_utf8(b);
    }
}

/// No entry comes before itself.
pub proof fn lemma_pick_irreflexive(p: Pick)
    ensures
        !pick_precedes(p, p),
{
    lemma_name_irreflexive(p.opt.name);
}

/// What comes before an earlier entry comes before the later one.
pub proof fn lemma_pick_transitive(p: Pick, q: Pick, r: Pick)
    requires
        pick_precedes(p, q),
        pick_precedes(q, r),
    ensures
        pick_precedes(p, r),
{
    if name_precedes(p.opt.name, q.opt.name) && name_precedes(q.opt.name, r.opt.name) {
        lemma_name_transitive(p.opt.name, q.opt.name, r.opt.name);
    }
}

/// Of two entries that differ in name or amount, one comes before the other.
pub proof fn lemma_pick_total(p: Pick, q: Pick)
    ensures
        key_of(p) == key_of(q) || pick_precedes(p, q) || pick_precedes(q, p),
{
    lemma_name_total(p.opt.name, q.opt.name);
}

/// Where the insertion index lies, and what it separates.
pub proof fn lemma_insertion_index(picks: Seq<Pick>, p: Pick)
    ensures
        0 <= insertion_index(picks, p) <= picks.len(),
        forall|k: int|
            0 <= k < insertion_index(picks, p) ==> !pick_precedes(p, #[trigger] picks[k]),
        insertion_index(picks, p) < picks.len() ==> pick_precedes(
            p,
            picks[insertion_index(picks, p)],
        ),
    decreases picks.len(),
{
    if picks.len() > 0 && !pick_precedes(p, picks.first()) {
        let rest = picks.drop_first();
        lemma_insertion_index(rest, p);
        assert forall|k: int| 0 <= k < insertion_index(picks, p) implies !pick_precedes(
            p,
            #[trigger] picks[k],
        ) by {
            if k > 0 {
                assert(picks[k] == rest[k - 1]);
            }
        }
    }
}

/// An index with the two properties above is the insertion index.
pub proof fn lemma_insertion_index_unique(picks: Seq<Pick>, p: Pick, pos: int)
    requires
        0 <= pos <= picks.len(),
        forall|k: int| 0 <= k < pos ==> !pick_precedes(p, #[trigger] picks[k]),
        pos < picks.len() ==> pick_precedes(p, picks[pos]),
    ensures
        pos == insertion_index(picks, p),
    decreases picks.len(),
{
    if picks.len() > 0 {
        if pos == 0 {
        } else {
            let rest = picks.drop_first();
            assert(!pick_precedes(p, picks[0]));
            assert forall|k: int| 0 <= k < pos - 1 implies !pick_precedes(p, #[trigger] rest[k]) by {
                assert(rest[k] == picks[k + 1]);
            }
            lemma_insertion_index_unique(rest, p, pos - 1);
        }
    }
}

/// Putting an entry at its insertion index keeps a combination canonical.
pub proof fn lemma_insert_keeps_canonical(picks: Seq<Pick>, p: Pick)
    requires
        canonical(picks),
    ensures
        canonical(picks.insert(insertion_index(picks, p), p)),
{
    lemma_insertion_index(picks, p);
    let pos = insertion_index(picks, p);
    let out = picks.insert(pos, p);
    assert forall|i: int, j: int| 0 <= i < j < out.len() implies !pick_precedes(
        #[trigger] out[j],
        #[trigger] out[i],
    ) by {
        if j == pos {
            assert(out[i] == picks[i]);
        } else if i == pos {
            assert(out[j] == picks[j - 1]);
            if pick_precedes(out[j], p) {
                lemma_pick_transitive(out[j], p, picks[pos]);
                if j - 1 == pos {
                    lemma_pick_irreflexive(picks[pos]);
                }
            }
        } else {
            let oi = if i < pos { i } else { i - 1 };
            let oj = if j < pos { j } else { j - 1 };
            assert(out[i] == picks[oi]);
            assert(out[j] == picks[oj]);
        }
    }
}

/// Putting an entry anywhere adds its name and amount, once, to those of the
/// combination.
pub proof fn lemma_insert_keys(picks: Seq<Pick>, at: int, p: Pick)
    requires
        0 <= at <= picks.len(),
    ensures
        keys(picks.insert(at, p)).to_multiset() == keys(picks).to_multiset().insert(key_of(p)),
{
    broadcast use vstd::seq_lib::group_to_multiset_ensures;

    let out = keys(picks.insert(at, p));
    assert(out.remove(at) =~= keys(picks));
    vstd::seq_lib::to_multiset_remove(out, at);
    assert(out[at] == key_of(p));
    assert(out.to_multiset() =~= keys(picks).to_multiset().insert(key_of(p)));
}

/// Putting an entry at its insertion index adds its name and amount, once,
/// to those of the combination.
pub proof fn lemma_with_pick_keys(picks: Seq<Pick>, p: Pick)
    ensures
        keys(with_pick(picks, p)).to_multiset() == keys(picks).to_multiset().insert(key_of(p)),
{
    lemma_insertion_index(picks, p);
    lemma_insert_keys(picks, insertion_index(picks, p), p);
}

/// A canonical combination without one of its entries is canonical.
pub proof fn lemma_remove_keeps_canonical(picks: Seq<Pick>, k: int)
    requires
        canonical(picks),
        0 <= k < picks.len(),
    ensures
        canonical(picks.remove(k)),
{
    let out = picks.remove(k);
    assert forall|i: int, j: int| 0 <= i < j < out.len() implies !pick_precedes(
        #[trigger] out[j],
        #[trigger] out[i],
    ) by {
        let oi = if i < k { i } else { i + 1 };
        let oj = if j < k { j } else { j + 1 };
        assert(out[i] == picks[oi]);
        assert(out[j] == picks[oj]);
    }
}

/// Combinations with the same entries have the same names and amounts.
pub proof fn lemma_same_entries_keys(a: Seq<Pick>, b: Seq<Pick>)
    requires
        same_entries(a, b),
    ensures
        keys(a) == keys(b),
{
    assert forall|k: int| 0 <= k < a.len() implies keys(a)[k] == keys(b)[k] by {
        assert(a[k].opt.name == b[k].opt.name && a[k].amount == b[k].amount);
    }
    assert(keys(a) =~= keys(b));
}

} // verus!
