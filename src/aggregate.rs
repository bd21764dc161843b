use vstd::prelude::*;
use crate::fields::same_text;
use crate::types::{EffectModel, Entry, KeyConfig};

verus! {

/// Lexicographic order of key codes, character by character (by code point).
pub open spec fn code_lt(a: Seq<char>, b: Seq<char>) -> bool
    decreases a.len(),
{
    if a.len() == 0 {
        b.len() > 0
    } else if b.len() == 0 {
        false
    } else if a[0] != b[0] {
        a[0] < b[0]
    } else {
        code_lt(a.drop_first(), b.drop_first())
    }
}

/// The entries that a list of effects stands for.
pub open spec fn entries(v: Seq<KeyConfig>) -> Seq<Entry> {
    v.map_values(|k: KeyConfig| k@)
}

/// The table that inserting `es` in order builds: a later entry for a code replaces an
/// earlier one.
pub open spec fn table_of(es: Seq<Entry>) -> Map<Seq<char>, EffectModel>
    decreases es.len(),
{
    if es.len() == 0 {
        Map::empty()
    } else {
        table_of(es.drop_last()).insert(es.last().0, es.last().1)
    }
}

/// No two entries share a code.
pub open spec fn codes_unique(v: Seq<Entry>) -> bool {
    forall|i: int, j: int| 0 <= i < j < v.len() ==> v[i].0 != v[j].0
}

/// `v` holds exactly the pairs of `m`, each once.
pub open spec fn represents(v: Seq<Entry>, m: Map<Seq<char>, EffectModel>) -> bool {
    &&& codes_unique(v)
    &&& forall|i: int| 0 <= i < v.len() ==> m.contains_key(#[trigger] v[i].0) && m[v[i].0] == v[i].1
    &&& forall|k: Seq<char>| #[trigger] m.contains_key(k) ==> exists|i: int| 0 <= i < v.len() && v[i].0 == k
}

/// The codes of `v` strictly ascend.
pub open spec fn sorted_by_code(v: Seq<Entry>) -> bool {
    forall|i: int, j: int| 0 <= i < j < v.len() ==> code_lt(v[i].0, v[j].0)
}

/// `v` lists the pairs of `m` in ascending order of code.
pub open spec fn is_listing(v: Seq<Entry>, m: Map<Seq<char>, EffectModel>) -> bool {
    sorted_by_code(v) && represents(v, m)
}

/// No code comes before itself.
pub proof fn lemma_code_lt_irreflexive(a: Seq<char>)
    ensures
        !code_lt(a, a),
    decreases a.len(),
{
    if a.len() > 0 {
        lemma_code_lt_irreflexive(a.drop_first());
    }
}

/// The order of codes is transitive.
pub proof fn lemma_code_lt_transitive(a: Seq<char>, b: Seq<char>, c: Seq<char>)
    requires
        code_lt(a, b),
        code_lt(b, c),
    ensures
        code_lt(a, c),
    decreases a.len(),
{
    if a.len() > 0 && b.len() > 0 && c.len() > 0 && a[0] == b[0] && b[0] == c[0] {
        lemma_code_lt_transitive(a.drop_first(), b.drop_first(), c.drop_first());
    }
}

/// Of two different codes, one comes before the other.
pub proof fn lemma_code_lt_total(a: Seq<char>, b: Seq<char>)
    requires
        a != b,
    ensures
        code_lt(a, b) || code_lt(b, a),
    decreases a.len(),
{
    if a.len() == 0 {
        if b.len() == 0 {
            assert(a =~= b);
        }
    } else if b.len() > 0 && a[0] == b[0] {
        if a.drop_first() == b.drop_first() {
            assert(a =~= seq![a[0]] + a.drop_first());
            assert(b =~= seq![b[0]] + b.drop_first());
        }
        lemma_code_lt_total(a.drop_first(), b.drop_first());
    }
}

/// Whether code `a` comes before code `b`.
pub fn code_less(a: &str, b: &str) -> (r: bool)
    ensures
        r == code_lt(a@, b@),
{
    let n = a.unicode_len();
    let m = b.unicode_len();
    let mut i: usize = 0;
    assert(a@.skip(0) =~= a@ && b@.skip(0) =~= b@);
    while i < n && i < m
        invariant
            n == a@.len(),
            m == b@.len(),
            i <= n,
            i <= m,
            code_lt(a@, b@) == code_lt(a@.skip(i as int), b@.skip(i as int)),
        decreases n - i,
    {
        let x = a.get_char(i);
        let y = b.get_char(i);
        assert(a@.skip(i as int)[0] == x && b@.skip(i as int)[0] == y);
        if x != y {
            return x < y;
        }
        assert(a@.skip(i as int).drop_first() =~= a@.skip(i + 1));
        assert(b@.skip(i as int).drop_first() =~= b@.skip(i + 1));
        i = i + 1;
    }
    i < m && i == n
}

proof fn lemma_sorted_unique(v: Seq<Entry>)
    requires
        sorted_by_code(v),
    ensures
        codes_unique(v),
{
    assert forall|i: int, j: int| 0 <= i < j < v.len() implies v[i].0 != v[j].0 by {
        lemma_code_lt_irreflexive(v[i].0);
    }
}

proof fn lemma_represents_drop_last(v: Seq<Entry>, m: Map<Seq<char>, EffectModel>)
    requires
        represents(v, m),
        v.len() > 0,
    ensures
        represents(v.drop_last(), m.remove(v.last().0)),
{
    let w = v.drop_last();
    let m2 = m.remove(v.last().0);
    assert forall|i: int| 0 <= i < w.len() implies #[trigger] m2.contains_key(w[i].0) && m2[w[i].0]
        == w[i].1 by {
        assert(w[i] == v[i]);
        assert(v[i].0 != v[v.len() - 1].0);
    }
    assert forall|k: Seq<char>| #[trigger] m2.contains_key(k) implies exists|i: int|
        0 <= i < w.len() && w[i].0 == k by {
        assert(m.contains_key(k));
        let i = choose|i: int| 0 <= i < v.len() && v[i].0 == k;
        assert(i != v.len() - 1);
        assert(w[i] == v[i]);
    }
}

/// Puts `kc` in the table, in place of the effect of the same code if there is one.
pub(crate) fn insert_entry(
    table: &mut Vec<KeyConfig>,
    kc: KeyConfig,
    Ghost(m): Ghost<Map<Seq<char>, EffectModel>>,
)
    requires
        represents(entries(old(table)@), m),
    ensures
        represents(entries(final(table)@), m.insert(kc@.0, kc@.1)),
{
    let ghost old_v = entries(table@);
    let ghost e = kc@;
    let ghost m2 = m.insert(e.0, e.1);
    let mut i: usize = 0;
    while i < table.len()
        invariant
            i <= table.len(),
            entries(table@) == old_v,
            represents(old_v, m),
            e == kc@,
            m2 == m.insert(e.0, e.1),
            forall|j: int| 0 <= j < i ==> old_v[j].0 != e.0,
        decreases table.len() - i,
    {
        assert(old_v[i as int] == table@[i as int]@);
        if same_text(table[i].code().as_str(), kc.code().as_str()) {
            let ghost tv = table@;
            table[i] = kc;
            assert(table@ == tv.update(i as int, kc));
            proof {
                let nv = entries(table@);
                assert(nv =~= old_v.update(i as int, e));
                assert forall|j: int| 0 <= j < nv.len() implies #[trigger] m2.contains_key(nv[j].0)
                    && m2[nv[j].0] == nv[j].1 by {
                    if j != i {
                        assert(nv[j] == old_v[j]);
                        if j < i {
                            assert(old_v[j].0 != old_v[i as int].0);
                        } else {
                            assert(old_v[j].0 != old_v[i as int].0);
                        }
                    }
                }
                assert forall|k: Seq<char>| #[trigger] m2.contains_key(k) implies exists|j: int|
                    0 <= j < nv.len() && nv[j].0 == k by {
                    if k != e.0 {
                        assert(m.contains_key(k));
                        let j = choose|j: int| 0 <= j < old_v.len() && old_v[j].0 == k;
                        assert(nv[j] == old_v[j]);
                    } else {
                        assert(nv[i as int].0 == k);
                    }
                }
            }
            return;
        }
        i = i + 1;
    }
    table.push(kc);
    proof {
        let nv = entries(table@);
        assert(nv =~= old_v.push(e));
        assert forall|j: int| 0 <= j < nv.len() implies #[trigger] m2.contains_key(nv[j].0) && m2[nv[j].0]
            == nv[j].1 by {
            if j < old_v.len() {
                assert(nv[j] == old_v[j]);
            }
        }
        assert forall|k: Seq<char>| #[trigger] m2.contains_key(k) implies exists|j: int|
            0 <= j < nv.len() && nv[j].0 == k by {
            if k != e.0 {
                assert(m.contains_key(k));
                let j = choose|j: int| 0 <= j < old_v.len() && old_v[j].0 == k;
                assert(nv[j] == old_v[j]);
            } else {
                assert(nv[old_v.len() as int].0 == k);
            }
        }
    }
}

/// Takes the effects out of a table and lists them in ascending order of code.
pub(crate) fn sort_by_code(
    table: Vec<KeyConfig>,
    Ghost(m): Ghost<Map<Seq<char>, EffectModel>>,
) -> (r: Vec<KeyConfig>)
    requires
        represents(entries(table@), m),
    ensures
        is_listing(entries(r@), m),
{
    let mut rest = table;
    let mut out: Vec<KeyConfig> = Vec::new();
    let ghost mut mo: Map<Seq<char>, EffectModel> = Map::empty();
    let ghost mut mr = m;
    assert(mo.union_prefer_right(mr) =~= m);
    while rest.len() > 0
        invariant
            represents(entries(rest@), mr),
            is_listing(entries(out@), mo),
            mo.dom().disjoint(mr.dom()),
            mo.union_prefer_right(mr) == m,
        decreases rest.len(),
    {
        let ghost rv = entries(rest@);
        proof {
            lemma_represents_drop_last(rv, mr);
        }
        let kc = rest.pop().unwrap();
        let ghost e = kc@;
        assert(rv.last() == e);
        assert(entries(rest@) =~= rv.drop_last());
        let ghost ov = entries(out@);
        assert(!mo.contains_key(e.0));
        let mut p: usize = 0;
        while p < out.len() && code_less(out[p].code().as_str(), kc.code().as_str())
            invariant
                p <= out.len(),
                ov == entries(out@),
                e == kc@,
                forall|j: int| 0 <= j < p ==> code_lt(ov[j].0, e.0),
            decreases out.len() - p,
        {
            p = p + 1;
        }
        proof {
            if p < ov.len() {
                assert(mo.contains_key(ov[p as int].0));
                lemma_code_lt_total(ov[p as int].0, e.0);
            }
        }
        out.insert(p, kc);
        proof {
            let nv = entries(out@);
            assert(nv =~= ov.insert(p as int, e));
            let mo2 = mo.insert(e.0, e.1);
            assert forall|i: int, j: int| 0 <= i < j < nv.len() implies code_lt(nv[i].0, nv[j].0) by {
                if j < p {
                } else if j == p {
                } else if i < p {
                    if j > p + 1 {
                        lemma_code_lt_transitive(e.0, ov[p as int].0, ov[j - 1].0);
                    }
                    lemma_code_lt_transitive(nv[i].0, e.0, nv[j].0);
                } else if i == p {
                    if j > p + 1 {
                        lemma_code_lt_transitive(e.0, ov[p as int].0, ov[j - 1].0);
                    }
                } else {
                }
            }
            lemma_sorted_unique(nv);
            assert forall|i: int| 0 <= i < nv.len() implies #[trigger] mo2.contains_key(nv[i].0)
                && mo2[nv[i].0] == nv[i].1 by {
                if i < p {
                    assert(nv[i] == ov[i]);
                } else if i > p {
                    assert(nv[i] == ov[i - 1]);
                }
            }
            assert forall|k: Seq<char>| #[trigger] mo2.contains_key(k) implies exists|i: int|
                0 <= i < nv.len() && nv[i].0 == k by {
                if k != e.0 {
                    assert(mo.contains_key(k));
                    let i = choose|i: int| 0 <= i < ov.len() && ov[i].0 == k;
                    if i < p {
                        assert(nv[i] == ov[i]);
                    } else {
                        assert(nv[i + 1] == ov[i]);
                    }
                } else {
                    assert(nv[p as int].0 == k);
                }
            }
            assert(mo2.union_prefer_right(mr.remove(e.0)) =~= m);
            mo = mo2;
            mr = mr.remove(e.0);
        }
    }
    assert(mo =~= m);
    out
}

} // verus!
