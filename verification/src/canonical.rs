use vstd::prelude::*;
use crate::model::{BencodeValue, SpecValue, view_of, views_of, pair_views_of, wf, all_uniq,
    has_key, distinct_keys, sorted_pairs, lex_lt, height_of, heights_of, pair_heights_of,
    lemma_views_of_index, lemma_pair_views_of_index, lemma_heights_of_bound,
    lemma_pair_heights_of_bound, lemma_wf_implies_uniq, lemma_lex_irrefl, lemma_lex_trans,
    lemma_lex_total, lemma_has_key_push};
use crate::encode::{encode, encode_tree};
use crate::hash::info_hash_of;

verus! {

/// The content of a bencode value, with dictionaries read as maps: two
/// trees have the same content exactly when they carry the same data,
/// whatever order their dictionary entries stand in.
pub enum SemValue {
    Bytes(Seq<u8>),
    Int(int),
    List(Seq<SemValue>),
    Dict(Map<Seq<u8>, SemValue>),
}

/// The content of a tree.
pub open spec fn sem_of(t: SpecValue) -> SemValue
    decreases t,
{
    match t {
        SpecValue::Bytes(b) => SemValue::Bytes(b),
        SpecValue::Int(i) => SemValue::Int(i),
        SpecValue::List(l) => SemValue::List(sems_of(l)),
        SpecValue::Dict(d) => SemValue::Dict(sem_map(d)),
    }
}

/// The contents of a sequence of trees, element by element.
pub open spec fn sems_of(l: Seq<SpecValue>) -> Seq<SemValue>
    decreases l,
{
    if l.len() == 0 {
        Seq::empty()
    } else {
        sems_of(l.drop_last()).push(sem_of(l.last()))
    }
}

/// The content map of a pair sequence: later entries override earlier ones,
/// which never matters when keys are distinct.
pub open spec fn sem_map(d: Seq<(Seq<u8>, SpecValue)>) -> Map<Seq<u8>, SemValue>
    decreases d,
{
    if d.len() == 0 {
        Map::empty()
    } else {
        sem_map(d.drop_last()).insert(d.last().0, sem_of(d.last().1))
    }
}

/// Element contents line up with the elements.
pub proof fn lemma_sems_of_index(l: Seq<SpecValue>)
    ensures
        sems_of(l).len() == l.len(),
        forall|i: int| 0 <= i < l.len() ==> sems_of(l)[i] == sem_of(#[trigger] l[i]),
    decreases l,
{
    if l.len() > 0 {
        lemma_sems_of_index(l.drop_last());
        assert forall|i: int| 0 <= i < l.len() implies sems_of(l)[i] == sem_of(
            #[trigger] l[i],
        ) by {
            if i < l.len() - 1 {
                assert(l.drop_last()[i] == l[i]);
                assert(sems_of(l)[i] == sems_of(l.drop_last())[i]);
            }
        }
    }
}

/// A key lies in the content map exactly when some entry carries it.
pub proof fn lemma_sem_map_dom(d: Seq<(Seq<u8>, SpecValue)>)
    ensures
        forall|k: Seq<u8>| sem_map(d).dom().contains(k) <==> has_key(d, k),
    decreases d,
{
    if d.len() > 0 {
        lemma_sem_map_dom(d.drop_last());
        assert(d =~= d.drop_last().push(d.last()));
        assert forall|k: Seq<u8>| sem_map(d).dom().contains(k) <==> has_key(d, k) by {
            lemma_has_key_push(d.drop_last(), d.last(), k);
        }
    }
}

/// With distinct keys, the content map sends each entry's key to that
/// entry's value.
pub proof fn lemma_sem_map_index(d: Seq<(Seq<u8>, SpecValue)>)
    requires
        distinct_keys(d),
    ensures
        forall|i: int|
            0 <= i < d.len() ==> sem_map(d)[(#[trigger] d[i]).0] == sem_of(d[i].1),
    decreases d,
{
    if d.len() > 0 {
        lemma_sem_map_index(d.drop_last());
        assert forall|i: int|
            0 <= i < d.len() implies sem_map(d)[(#[trigger] d[i]).0] == sem_of(d[i].1) by {
            if i < d.len() - 1 {
                assert(d.drop_last()[i] == d[i]);
                assert(d[i].0 != d.last().0);
            }
        }
    }
}

/// The keys of a pair sequence, in entry order.
pub open spec fn keys_of(d: Seq<(Seq<u8>, SpecValue)>) -> Seq<Seq<u8>> {
    Seq::new(d.len(), |i: int| d[i].0)
}

/// A key occurs in `keys_of(d)` exactly when some entry carries it.
proof fn lemma_keys_contains(d: Seq<(Seq<u8>, SpecValue)>)
    ensures
        forall|k: Seq<u8>| keys_of(d).contains(k) <==> has_key(d, k),
{
    assert forall|k: Seq<u8>| keys_of(d).contains(k) <==> has_key(d, k) by {
        if keys_of(d).contains(k) {
            let w = choose|i: int| 0 <= i < keys_of(d).len() && keys_of(d)[i] == k;
            assert(d[w].0 == k);
        }
        if has_key(d, k) {
            let w = choose|i: int| 0 <= i < d.len() && (#[trigger] d[i]).0 == k;
            assert(keys_of(d)[w] == k);
        }
    }
}

/// Two strictly sorted key sequences with the same membership are equal.
proof fn lemma_sorted_keys_unique(a: Seq<Seq<u8>>, b: Seq<Seq<u8>>)
    requires
        forall|p: int, q: int| 0 <= p < q < a.len() ==> lex_lt(#[trigger] a[p], #[trigger] a[q]),
        forall|p: int, q: int| 0 <= p < q < b.len() ==> lex_lt(#[trigger] b[p], #[trigger] b[q]),
        forall|k: Seq<u8>| a.contains(k) <==> b.contains(k),
    ensures
        a == b,
    decreases a.len(),
{
    if a.len() == 0 {
        if b.len() > 0 {
            assert(b.contains(b[0]));
            assert(a.contains(b[0]));
        }
        assert(a =~= b);
    } else {
        assert(a.contains(a[0]));
        assert(b.contains(a[0]));
        assert(b.len() > 0);
        assert(b.contains(b[0]));
        assert(a.contains(b[0]));
        let u = choose|i: int| 0 <= i < a.len() && a[i] == b[0];
        let w = choose|i: int| 0 <= i < b.len() && b[i] == a[0];
        if a[0] != b[0] {
            assert(u >= 1);
            assert(lex_lt(a[0], a[u]));
            assert(w >= 1);
            assert(lex_lt(b[0], b[w]));
            lemma_lex_trans(a[0], b[0], a[0]);
            lemma_lex_irrefl(a[0]);
        }
        let at = a.drop_first();
        let bt = b.drop_first();
        assert forall|k: Seq<u8>| at.contains(k) <==> bt.contains(k) by {
            if at.contains(k) {
                let i = choose|i: int| 0 <= i < at.len() && at[i] == k;
                assert(a[i + 1] == k);
                assert(lex_lt(a[0], k));
                assert(a.contains(k));
                assert(b.contains(k));
                let j = choose|j: int| 0 <= j < b.len() && b[j] == k;
                lemma_lex_irrefl(k);
                assert(j >= 1);
                assert(bt[j - 1] == k);
                assert(bt.contains(k));
            }
            if bt.contains(k) {
                let i = choose|i: int| 0 <= i < bt.len() && bt[i] == k;
                assert(b[i + 1] == k);
                assert(lex_lt(b[0], k));
                assert(b.contains(k));
                assert(a.contains(k));
                let j = choose|j: int| 0 <= j < a.len() && a[j] == k;
                lemma_lex_irrefl(k);
                assert(j >= 1);
                assert(at[j - 1] == k);
                assert(at.contains(k));
            }
        }
        assert forall|p: int, q: int| 0 <= p < q < at.len() implies lex_lt(
            #[trigger] at[p],
            #[trigger] at[q],
        ) by {
            assert(at[p] == a[p + 1]);
            assert(at[q] == a[q + 1]);
        }
        assert forall|p: int, q: int| 0 <= p < q < bt.len() implies lex_lt(
            #[trigger] bt[p],
            #[trigger] bt[q],
        ) by {
            assert(bt[p] == b[p + 1]);
            assert(bt[q] == b[q + 1]);
        }
        lemma_sorted_keys_unique(at, bt);
        assert forall|i: int| 0 <= i < a.len() implies a[i] == b[i] by {
            if i > 0 {
                assert(at[i - 1] == a[i]);
                assert(bt[i - 1] == b[i]);
                assert(at[i - 1] == bt[i - 1]);
            }
        }
        assert(a =~= b);
    }
}

/// Canonical form is unique: two canonical trees with the same content are
/// the same tree.
pub proof fn lemma_canonical_unique(x: SpecValue, y: SpecValue)
    requires
        wf(x),
        wf(y),
        sem_of(x) == sem_of(y),
    ensures
        x == y,
    decreases height_of(x),
{
    match x {
        SpecValue::Bytes(_) => {},
        SpecValue::Int(_) => {},
        SpecValue::List(lx) => {
            match y {
                SpecValue::List(ly) => {
                    lemma_sems_of_index(lx);
                    lemma_sems_of_index(ly);
                    lemma_heights_of_bound(lx);
                    assert forall|i: int| 0 <= i < lx.len() implies lx[i] == ly[i] by {
                        assert(sems_of(lx)[i] == sem_of(lx[i]));
                        assert(sems_of(ly)[i] == sem_of(ly[i]));
                        assert(height_of(lx[i]) < height_of(x));
                        lemma_canonical_unique(lx[i], ly[i]);
                    }
                    assert(lx =~= ly);
                },
                _ => {},
            }
        },
        SpecValue::Dict(dx) => {
            match y {
                SpecValue::Dict(dy) => {
                    lemma_wf_implies_uniq(x);
                    lemma_wf_implies_uniq(y);
                    lemma_sem_map_dom(dx);
                    lemma_sem_map_dom(dy);
                    lemma_keys_contains(dx);
                    lemma_keys_contains(dy);
                    let ka = keys_of(dx);
                    let kb = keys_of(dy);
                    assert(sem_map(dx) == sem_map(dy));
                    assert forall|k: Seq<u8>| ka.contains(k) <==> kb.contains(k) by {
                        assert(ka.contains(k) <==> has_key(dx, k));
                        assert(has_key(dx, k) <==> sem_map(dx).dom().contains(k));
                        assert(kb.contains(k) <==> has_key(dy, k));
                        assert(has_key(dy, k) <==> sem_map(dy).dom().contains(k));
                        assert(sem_map(dx).dom() == sem_map(dy).dom());
                    }
                    lemma_sorted_keys_unique(ka, kb);
                    assert(dx.len() == dy.len());
                    lemma_sem_map_index(dx);
                    lemma_sem_map_index(dy);
                    lemma_pair_heights_of_bound(dx);
                    assert forall|i: int| 0 <= i < dx.len() implies dx[i] == dy[i] by {
                        assert(ka[i] == kb[i]);
                        assert(dx[i].0 == dy[i].0);
                        assert(sem_map(dx)[dx[i].0] == sem_of(dx[i].1));
                        assert(sem_map(dy)[dy[i].0] == sem_of(dy[i].1));
                        assert(height_of(dx[i].1) < height_of(x));
                        lemma_canonical_unique(dx[i].1, dy[i].1);
                        assert(dx[i] == (dx[i].0, dx[i].1));
                        assert(dy[i] == (dy[i].0, dy[i].1));
                    }
                    assert(dx =~= dy);
                },
                _ => {},
            }
        },
    }
}

/// Canonical determinism: trees with the same content have the same
/// canonical encoding, because the canonical tree itself is unique.
pub proof fn lemma_encode_deterministic(x: SpecValue, y: SpecValue)
    requires
        wf(x),
        wf(y),
        sem_of(x) == sem_of(y),
    ensures
        encode_tree(x) == encode_tree(y),
{
    lemma_canonical_unique(x, y);
}

/// Info-hash stability: canonical info trees with the same content, in
/// whatever entry order their sources held, have identical digests.
pub proof fn lemma_info_hash_stable(x: SpecValue, y: SpecValue)
    requires
        wf(x),
        wf(y),
        sem_of(x) == sem_of(y),
    ensures
        info_hash_of(x) == info_hash_of(y),
{
    lemma_encode_deterministic(x, y);
}

/// Sequences whose elements agree in content agree in content.
proof fn lemma_sems_congruence(a: Seq<SpecValue>, b: Seq<SpecValue>)
    requires
        a.len() == b.len(),
        forall|i: int| 0 <= i < a.len() ==> sem_of(#[trigger] a[i]) == sem_of(b[i]),
    ensures
        sems_of(a) == sems_of(b),
    decreases a.len(),
{
    if a.len() > 0 {
        assert forall|i: int|
            0 <= i < a.drop_last().len() implies sem_of(#[trigger] a.drop_last()[i]) == sem_of(
            b.drop_last()[i],
        ) by {
            assert(a.drop_last()[i] == a[i]);
            assert(b.drop_last()[i] == b[i]);
        }
        lemma_sems_congruence(a.drop_last(), b.drop_last());
        assert(sem_of(a.last()) == sem_of(b.last()));
    }
}

/// Inserting a pair changes key membership by exactly that pair's key.
proof fn lemma_has_key_insert_at(
    d: Seq<(Seq<u8>, SpecValue)>,
    m: int,
    p: (Seq<u8>, SpecValue),
    k: Seq<u8>,
)
    requires
        0 <= m <= d.len(),
    ensures
        has_key(d.insert(m, p), k) == (has_key(d, k) || p.0 == k),
{
    d.insert_ensures(m, p);
    let e = d.insert(m, p);
    if has_key(e, k) {
        let w = choose|i: int| 0 <= i < e.len() && (#[trigger] e[i]).0 == k;
        if w < m {
            assert(d[w].0 == k);
        } else if w == m {
        } else {
            assert(d[w - 1].0 == k);
        }
    }
    if has_key(d, k) {
        let w = choose|i: int| 0 <= i < d.len() && (#[trigger] d[i]).0 == k;
        if w < m {
            assert(e[w].0 == k);
        } else {
            assert(e[w + 1].0 == k);
        }
    }
    if p.0 == k {
        assert(e[m].0 == k);
    }
}

/// Inserting a pair with a fresh key adds exactly that binding to the
/// content map, wherever it is inserted.
proof fn lemma_sem_map_insert_at(d: Seq<(Seq<u8>, SpecValue)>, m: int, p: (Seq<u8>, SpecValue))
    requires
        0 <= m <= d.len(),
        !has_key(d, p.0),
    ensures
        sem_map(d.insert(m, p)) == sem_map(d).insert(p.0, sem_of(p.1)),
    decreases d.len(),
{
    d.insert_ensures(m, p);
    let e = d.insert(m, p);
    if m == d.len() {
        assert(e =~= d.push(p));
        assert(e.drop_last() =~= d);
    } else {
        assert(e.last() == d.last());
        assert(e.drop_last() =~= d.drop_last().insert(m, p)) by {
            d.drop_last().insert_ensures(m, p);
        }
        assert(!has_key(d.drop_last(), p.0)) by {
            if has_key(d.drop_last(), p.0) {
                let w = choose|i: int|
                    0 <= i < d.drop_last().len() && (#[trigger] d.drop_last()[i]).0 == p.0;
                assert(d[w].0 == p.0);
            }
        }
        lemma_sem_map_insert_at(d.drop_last(), m, p);
        assert(d.last().0 != p.0) by {
            if d.last().0 == p.0 {
                assert(d[d.len() - 1].0 == p.0);
            }
        }
        assert(sem_map(e) == sem_map(e.drop_last()).insert(e.last().0, sem_of(e.last().1)));
        assert(sem_map(d.drop_last()).insert(p.0, sem_of(p.1)).insert(
            d.last().0,
            sem_of(d.last().1),
        ) =~= sem_map(d).insert(p.0, sem_of(p.1)));
    }
}

/// Byte strings that agree on a prefix compare as their tails compare.
proof fn lemma_lex_skip(a: Seq<u8>, b: Seq<u8>, k: int)
    requires
        0 <= k <= a.len(),
        k <= b.len(),
        forall|j: int| 0 <= j < k ==> a[j] == b[j],
    ensures
        lex_lt(a, b) == lex_lt(a.skip(k), b.skip(k)),
    decreases k,
{
    if k > 0 {
        assert(a[0] == b[0]);
        assert forall|j: int| 0 <= j < k - 1 implies a.drop_first()[j] == b.drop_first()[j] by {
            assert(a.drop_first()[j] == a[j + 1]);
            assert(b.drop_first()[j] == b[j + 1]);
        }
        lemma_lex_skip(a.drop_first(), b.drop_first(), k - 1);
        assert(a.drop_first().skip(k - 1) =~= a.skip(k));
        assert(b.drop_first().skip(k - 1) =~= b.skip(k));
    } else {
        assert(a.skip(0) =~= a);
        assert(b.skip(0) =~= b);
    }
}

/// Compares two byte vectors in the strict raw-byte order.
#[verifier::loop_isolation(false)]
pub fn bytes_lt(a: &Vec<u8>, b: &Vec<u8>) -> (r: bool)
    ensures
        r == lex_lt(a@, b@),
{
    let mut k: usize = 0;
    loop
        invariant
            k <= a@.len(),
            k <= b@.len(),
            forall|j: int| 0 <= j < k ==> a@[j] == b@[j],
        decreases a@.len() - k,
    {
        proof {
            lemma_lex_skip(a@, b@, k as int);
        }
        if k >= b.len() {
            return false;
        }
        if k >= a.len() {
            return true;
        }
        let x = a[k];
        let y = b[k];
        proof {
            assert(a@.skip(k as int)[0] == x);
            assert(b@.skip(k as int)[0] == y);
        }
        if x < y {
            return true;
        }
        if x > y {
            return false;
        }
        k = k + 1;
    }
}

/// Rebuilds a value in canonical form: every dictionary's entries end up
/// sorted by raw byte order of their keys, and the content is unchanged.
#[verifier::loop_isolation(false)]
pub fn canonicalize(v: BencodeValue) -> (r: BencodeValue)
    requires
        all_uniq(view_of(v)),
    ensures
        wf(view_of(r)),
        sem_of(view_of(r)) == sem_of(view_of(v)),
    decreases height_of(view_of(v)),
{
    match v {
        BencodeValue::ByteString(b) => BencodeValue::ByteString(b),
        BencodeValue::Integer(i) => BencodeValue::Integer(i),
        BencodeValue::List(l) => {
            let ghost orig = views_of(l@);
            proof {
                lemma_views_of_index(l@);
                lemma_heights_of_bound(orig);
            }
            let mut rem = l;
            let mut out: Vec<BencodeValue> = Vec::new();
            while rem.len() > 0
                invariant
                    out@.len() + rem@.len() == orig.len(),
                    views_of(rem@).len() == rem@.len(),
                    views_of(out@).len() == out@.len(),
                    forall|i: int|
                        0 <= i < rem@.len() ==> views_of(rem@)[i] == orig[out@.len() + i],
                    forall|i: int|
                        0 <= i < out@.len() ==> wf(#[trigger] views_of(out@)[i]) && sem_of(
                            views_of(out@)[i],
                        ) == sem_of(orig[i]),
                decreases rem@.len(),
            {
                let ghost rpre = rem@;
                let ghost opre = out@;
                let first = rem.remove(0);
                proof {
                    lemma_views_of_index(rpre);
                    lemma_views_of_index(rem@);
                    rpre.remove_ensures(0);
                    assert(rem@ =~= rpre.drop_first());
                    assert(view_of(first) == views_of(rpre)[0]);
                    assert(view_of(first) == orig[opre.len() as int]);
                    assert forall|i: int|
                        0 <= i < rem@.len() implies views_of(rem@)[i] == orig[opre.len() + 1
                        + i] by {
                        assert(rem@[i] == rpre[i + 1]);
                        assert(views_of(rpre)[i + 1] == view_of(rpre[i + 1]));
                    }
                    assert(height_of(view_of(first)) <= heights_of(orig));
                }
                let c = canonicalize(first);
                let ghost cv = view_of(c);
                out.push(c);
                proof {
                    lemma_views_of_index(opre);
                    assert(out@.drop_last() =~= opre);
                    assert(views_of(out@) == views_of(opre).push(cv));
                    assert forall|i: int|
                        0 <= i < out@.len() implies wf(#[trigger] views_of(out@)[i]) && sem_of(
                            views_of(out@)[i],
                        ) == sem_of(orig[i]) by {
                        if i < opre.len() {
                            assert(views_of(out@)[i] == views_of(opre)[i]);
                        } else {
                            assert(views_of(out@)[i] == cv);
                        }
                    }
                }
            }
            let r = BencodeValue::List(out);
            proof {
                lemma_views_of_index(out@);
                lemma_sems_congruence(views_of(out@), orig);
            }
            r
        },
        BencodeValue::Dictionary(dict) => {
            let ghost orig = pair_views_of(dict@);
            proof {
                lemma_pair_views_of_index(dict@);
                lemma_pair_heights_of_bound(orig);
                lemma_sem_map_index(orig);
                lemma_sem_map_dom(orig);
            }
            let mut rem = dict;
            let mut res: Vec<(Vec<u8>, BencodeValue)> = Vec::new();
            while rem.len() > 0
                invariant
                    pair_views_of(rem@).len() == rem@.len(),
                    pair_views_of(res@).len() == res@.len(),
                    rem@.len() <= orig.len(),
                    pair_views_of(rem@) == orig.subrange(0, rem@.len() as int),
                    forall|i: int|
                        0 <= i < res@.len() ==> pair_views_of(res@)[i] == ((
                        #[trigger] res@[i]).0@, view_of(res@[i].1)),
                    sorted_pairs(pair_views_of(res@)),
                    distinct_keys(pair_views_of(res@)),
                    forall|i: int|
                        0 <= i < res@.len() ==> wf((#[trigger] pair_views_of(res@)[i]).1),
                    forall|k: Seq<u8>|
                        has_key(orig, k) <==> (has_key(pair_views_of(rem@), k) || has_key(
                            pair_views_of(res@),
                            k,
                        )),
                    forall|k: Seq<u8>|
                        !(has_key(pair_views_of(rem@), k) && has_key(pair_views_of(res@), k)),
                    forall|k: Seq<u8>|
                        has_key(pair_views_of(res@), k) ==> sem_map(pair_views_of(res@))[k]
                            == sem_map(orig)[k],
                decreases rem@.len(),
            {
                let ghost rpre = pair_views_of(rem@);
                let ghost n = rem@.len() as int;
                let popped = rem.pop().unwrap();
                let (kk, val) = popped;
                proof {
                    assert(pair_views_of(rem@) =~= rpre.drop_last());
                    assert(rpre =~= orig.subrange(0, n));
                    assert(rpre.drop_last() =~= orig.subrange(0, n - 1)) by {
                        assert forall|i: int|
                            0 <= i < n - 1 implies rpre.drop_last()[i] == orig.subrange(
                            0,
                            n - 1,
                        )[i] by {
                            assert(rpre[i] == orig.subrange(0, n)[i]);
                            assert(orig.subrange(0, n)[i] == orig[i]);
                            assert(orig.subrange(0, n - 1)[i] == orig[i]);
                        }
                    }
                    assert(pair_views_of(rem@) =~= orig.subrange(0, rem@.len() as int));
                    assert(rpre.last() == orig.subrange(0, n)[n - 1]);
                    assert(rpre.last() == orig[n - 1]);
                    assert(kk@ == orig[n - 1].0);
                    assert(view_of(val) == orig[n - 1].1);
                    assert(all_uniq(view_of(val)));
                    assert(height_of(view_of(val)) <= pair_heights_of(orig));
                    assert forall|k: Seq<u8>|
                        has_key(rpre, k) implies (has_key(pair_views_of(rem@), k) || kk@
                        == k) by {
                        let w = choose|i: int| 0 <= i < rpre.len() && (#[trigger] rpre[i]).0 == k;
                        if w < rpre.len() - 1 {
                            assert(rpre.drop_last()[w].0 == k);
                        }
                    }
                    assert(has_key(rpre, kk@)) by {
                        assert(rpre[n - 1].0 == kk@);
                    }
                    assert(!has_key(pair_views_of(res@), kk@));
                    assert(!has_key(pair_views_of(rem@), kk@)) by {
                        if has_key(pair_views_of(rem@), kk@) {
                            let w = choose|i: int|
                                0 <= i < pair_views_of(rem@).len() && (#[trigger] pair_views_of(
                                    rem@,
                                )[i]).0 == kk@;
                            assert(orig[w].0 == orig[n - 1].0);
                        }
                    }
                }
                let c = canonicalize(val);
                let mut m: usize = 0;
                while m < res.len() && bytes_lt(&res[m].0, &kk)
                    invariant
                        m <= res@.len(),
                        forall|j: int|
                            0 <= j < m ==> lex_lt((#[trigger] pair_views_of(res@)[j]).0, kk@),
                    decreases res@.len() - m,
                {
                    m = m + 1;
                }
                proof {
                    if m < res@.len() {
                        assert(pair_views_of(res@)[m as int].0 != kk@) by {
                            if pair_views_of(res@)[m as int].0 == kk@ {
                                assert(has_key(pair_views_of(res@), kk@));
                            }
                        }
                        if !lex_lt(kk@, pair_views_of(res@)[m as int].0) {
                            lemma_lex_total(pair_views_of(res@)[m as int].0, kk@);
                        }
                        assert(lex_lt(kk@, pair_views_of(res@)[m as int].0));
                    }
                    assert forall|j: int|
                        m <= j < res@.len() implies lex_lt(kk@, (#[trigger] pair_views_of(
                            res@,
                        )[j]).0) by {
                        if j > m {
                            lemma_lex_trans(
                                kk@,
                                pair_views_of(res@)[m as int].0,
                                pair_views_of(res@)[j].0,
                            );
                        }
                    }
                }
                let ghost respre = pair_views_of(res@);
                let ghost resvec_pre = res@;
                res.insert(m, (kk, c));
                proof {
                    respre.insert_ensures(m as int, (kk@, view_of(c)));
                    resvec_pre.insert_ensures(m as int, (kk, c));
                    lemma_pair_views_of_index(res@);
                    assert forall|i: int|
                        0 <= i < res@.len() implies pair_views_of(res@)[i] == respre.insert(
                        m as int,
                        (kk@, view_of(c)),
                    )[i] by {
                        if i < m {
                            assert(res@[i] == resvec_pre[i]);
                            assert(respre[i] == ((resvec_pre[i]).0@, view_of(resvec_pre[i].1)));
                        } else if i == m {
                            assert(res@[i] == (kk, c));
                        } else {
                            assert(res@[i] == resvec_pre[i - 1]);
                            assert(respre[i - 1] == ((resvec_pre[i - 1]).0@, view_of(
                                resvec_pre[i - 1].1,
                            )));
                        }
                    }
                    assert(pair_views_of(res@) =~= respre.insert(m as int, (kk@, view_of(c))));
                    let resv = pair_views_of(res@);
                    lemma_sem_map_insert_at(respre, m as int, (kk@, view_of(c)));
                    assert forall|p2: int, q2: int|
                        0 <= p2 < q2 < resv.len() implies lex_lt(
                            (#[trigger] resv[p2]).0,
                            (#[trigger] resv[q2]).0,
                        ) by {
                        let a2: Seq<u8> = if p2 < m {
                            respre[p2].0
                        } else if p2 == m {
                            kk@
                        } else {
                            respre[p2 - 1].0
                        };
                        let b2: Seq<u8> = if q2 < m {
                            respre[q2].0
                        } else if q2 == m {
                            kk@
                        } else {
                            respre[q2 - 1].0
                        };
                        assert(resv[p2].0 == a2);
                        assert(resv[q2].0 == b2);
                    }
                    assert forall|p2: int, q2: int|
                        0 <= p2 < q2 < resv.len() implies (#[trigger] resv[p2]).0 != (
                        #[trigger] resv[q2]).0 by {
                        lemma_lex_irrefl(resv[p2].0);
                    }
                    assert forall|k: Seq<u8>|
                        has_key(orig, k) <==> (has_key(pair_views_of(rem@), k) || has_key(
                            resv,
                            k,
                        )) by {
                        lemma_has_key_insert_at(respre, m as int, (kk@, view_of(c)), k);
                    }
                    assert forall|k: Seq<u8>|
                        !(has_key(pair_views_of(rem@), k) && has_key(resv, k)) by {
                        lemma_has_key_insert_at(respre, m as int, (kk@, view_of(c)), k);
                    }
                    assert(sem_map(orig)[kk@] == sem_of(orig[n - 1].1));
                    assert forall|k: Seq<u8>|
                        has_key(resv, k) implies sem_map(resv)[k] == sem_map(orig)[k] by {
                        lemma_has_key_insert_at(respre, m as int, (kk@, view_of(c)), k);
                    }
                }
            }
            let r = BencodeValue::Dictionary(res);
            proof {
                let resv = pair_views_of(res@);
                lemma_sem_map_dom(resv);
                assert(pair_views_of(rem@).len() == 0);
                assert forall|k: Seq<u8>| !has_key(pair_views_of(rem@), k) by {
                    if has_key(pair_views_of(rem@), k) {
                        let w = choose|i: int|
                            0 <= i < pair_views_of(rem@).len() && (#[trigger] pair_views_of(
                                rem@,
                            )[i]).0 == k;
                    }
                }
                assert forall|k: Seq<u8>|
                    sem_map(resv).dom().contains(k) <==> sem_map(orig).dom().contains(k) by {
                    assert(sem_map(resv).dom().contains(k) <==> has_key(resv, k));
                    assert(sem_map(orig).dom().contains(k) <==> has_key(orig, k));
                }
                assert(sem_map(resv).dom() =~= sem_map(orig).dom());
                assert forall|k: Seq<u8>|
                    sem_map(orig).dom().contains(k) implies sem_map(resv)[k] == sem_map(
                    orig,
                )[k] by {
                    assert(has_key(resv, k));
                }
                assert(sem_map(resv) =~= sem_map(orig));
            }
            r
        },
    }
}

/// Encodes any value with unique keys canonically: the bytes are the
/// canonical encoding of the (unique) canonical tree with this value's
/// content, whatever order its dictionaries held.
pub fn encode_canonical(v: BencodeValue) -> (r: Vec<u8>)
    requires
        all_uniq(view_of(v)),
    ensures
        exists|c: SpecValue|
            wf(c) && sem_of(c) == sem_of(view_of(v)) && r@ == encode_tree(c),
{
    let c = canonicalize(v);
    let ghost cv = view_of(c);
    let bytes = encode(&c);
    assert(wf(cv) && sem_of(cv) == sem_of(view_of(v)) && bytes@ == encode_tree(cv));
    bytes
}

/// The 20-byte info hash of a decoded info value, whatever order its
/// dictionary entries stand in: the SHA-1 digest of the canonical encoding
/// of the unique canonical tree with this value's content.
pub fn canonical_info_hash(info: BencodeValue) -> (r: Vec<u8>)
    requires
        all_uniq(view_of(info)),
    ensures
        exists|c: SpecValue|
            wf(c) && sem_of(c) == sem_of(view_of(info)) && r@ == info_hash_of(c),
        r@.len() == 20,
{
    let ghost before = view_of(info);
    let c = canonicalize(info);
    let ghost cv = view_of(c);
    let digest = crate::hash::info_hash(&c);
    assert(wf(cv) && sem_of(cv) == sem_of(before) && digest@ == info_hash_of(cv));
    digest
}

/// The canonical info hash as a lowercase hex string.
pub fn canonical_info_hash_hex(info: BencodeValue) -> (r: String)
    requires
        all_uniq(view_of(info)),
    ensures
        exists|c: SpecValue|
            wf(c) && sem_of(c) == sem_of(view_of(info)) && r@ == crate::hash::hex_chars(
                info_hash_of(c),
            ),
{
    let ghost before = view_of(info);
    let c = canonicalize(info);
    let ghost cv = view_of(c);
    let hexed = crate::hash::info_hash_hex(&c);
    assert(wf(cv) && sem_of(cv) == sem_of(before) && hexed@ == crate::hash::hex_chars(
        info_hash_of(cv),
    ));
    hexed
}

} // verus!
