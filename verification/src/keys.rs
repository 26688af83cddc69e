use vstd::prelude::*;

verus! {

/// Strict lexicographic order on byte strings: the order in which every
/// sorted table keeps its keys.
pub open spec fn key_lt(a: Seq<u8>, b: Seq<u8>) -> bool
    decreases a.len(),
{
    if b.len() == 0 {
        false
    } else if a.len() == 0 {
        true
    } else if a[0] < b[0] {
        true
    } else if a[0] > b[0] {
        false
    } else {
        key_lt(a.drop_first(), b.drop_first())
    }
}

pub proof fn lemma_key_lt_irreflexive(a: Seq<u8>)
    ensures
        !key_lt(a, a),
    decreases a.len(),
{
    if a.len() > 0 {
        lemma_key_lt_irreflexive(a.drop_first());
    }
}

pub proof fn lemma_key_lt_asymmetric(a: Seq<u8>, b: Seq<u8>)
    requires
        key_lt(a, b),
    ensures
        !key_lt(b, a),
    decreases a.len(),
{
    if a.len() > 0 && b.len() > 0 && a[0] == b[0] {
        lemma_key_lt_asymmetric(a.drop_first(), b.drop_first());
    }
}

pub proof fn lemma_key_lt_trichotomy(a: Seq<u8>, b: Seq<u8>)
    ensures
        key_lt(a, b) || key_lt(b, a) || a == b,
    decreases a.len(),
{
    if a.len() == 0 && b.len() == 0 {
        assert(a =~= b);
    } else if a.len() > 0 && b.len() > 0 && a[0] == b[0] {
        lemma_key_lt_trichotomy(a.drop_first(), b.drop_first());
        if a.drop_first() == b.drop_first() {
            assert forall|i: int| 0 <= i < a.len() implies a[i] == b[i] by {
                if i > 0 {
                    assert(a[i] == a.drop_first()[i - 1]);
                    assert(b[i] == b.drop_first()[i - 1]);
                }
            }
            assert(a =~= b);
        }
    }
}

pub proof fn lemma_key_lt_transitive(a: Seq<u8>, b: Seq<u8>, c: Seq<u8>)
    requires
        key_lt(a, b),
        key_lt(b, c),
    ensures
        key_lt(a, c),
    decreases a.len(),
{
    if a.len() > 0 && b.len() > 0 && c.len() > 0 {
        if a[0] == b[0] && b[0] == c[0] {
            lemma_key_lt_transitive(a.drop_first(), b.drop_first(), c.drop_first());
        }
    }
}

/// How two keys that agree on their first `i` bytes compare, depending on
/// what stands at position `i`.
pub proof fn lemma_key_lt_at(a: Seq<u8>, b: Seq<u8>, i: int)
    requires
        0 <= i <= a.len(),
        i <= b.len(),
        forall|j: int| 0 <= j < i ==> a[j] == b[j],
    ensures
        (i < a.len() && i < b.len() && a[i] < b[i]) ==> key_lt(a, b),
        (i == a.len() && i < b.len()) ==> key_lt(a, b),
        (i == a.len() && i == b.len()) ==> a == b,
    decreases i,
{
    if i == 0 {
        if i == a.len() && i == b.len() {
            assert(a =~= b);
        }
    } else {
        let at = a.drop_first();
        let bt = b.drop_first();
        assert(a[0] == b[0]);
        assert forall|j: int| 0 <= j < i - 1 implies at[j] == bt[j] by {
            assert(at[j] == a[j + 1]);
            assert(bt[j] == b[j + 1]);
        }
        lemma_key_lt_at(at, bt, i - 1);
        if i < a.len() && i < b.len() && a[i] < b[i] {
            assert(at[i - 1] < bt[i - 1]);
        }
        if i == a.len() && i == b.len() && at == bt {
            assert forall|j: int| 0 <= j < a.len() implies a[j] == b[j] by {
                if j > 0 {
                    assert(a[j] == at[j - 1]);
                    assert(b[j] == bt[j - 1]);
                }
            }
            assert(a =~= b);
        }
    }
}

/// Three-way outcome of one key comparison.
#[derive(Debug, Clone, Copy, PartialEq, Eq, Structural)]
pub enum KeyOrder {
    Less,
    Equal,
    Greater,
}

/// Compares two keys lexicographically.
pub fn key_compare(a: &[u8], b: &[u8]) -> (r: KeyOrder)
    ensures
        r == KeyOrder::Less ==> key_lt(a@, b@),
        r == KeyOrder::Greater ==> key_lt(b@, a@),
        r == KeyOrder::Equal ==> a@ == b@,
{
    let a_len = a.len();
    let b_len = b.len();
    let min_len: usize = if a_len < b_len {
        a_len
    } else {
        b_len
    };
    let mut i: usize = 0;
    while i < min_len
        invariant
            i <= min_len,
            min_len <= a@.len(),
            min_len <= b@.len(),
            min_len == if a@.len() < b@.len() {
                a@.len()
            } else {
                b@.len()
            },
            forall|j: int| 0 <= j < i ==> a@[j] == b@[j],
        decreases min_len - i,
    {
        let x = *vstd::slice::slice_index_get(a, i);
        let y = *vstd::slice::slice_index_get(b, i);
        if x < y {
            proof {
                lemma_key_lt_at(a@, b@, i as int);
            }
            return KeyOrder::Less;
        }
        if x > y {
            proof {
                lemma_key_lt_at(b@, a@, i as int);
            }
            return KeyOrder::Greater;
        }
        i = i + 1;
    }
    if a_len < b_len {
        proof {
            lemma_key_lt_at(a@, b@, i as int);
        }
        KeyOrder::Less
    } else if b_len < a_len {
        proof {
            lemma_key_lt_at(b@, a@, i as int);
        }
        KeyOrder::Greater
    } else {
        proof {
            lemma_key_lt_at(a@, b@, i as int);
        }
        KeyOrder::Equal
    }
}

/// Whether two keys hold the same bytes.
pub fn key_eq(a: &[u8], b: &[u8]) -> (r: bool)
    ensures
        r == (a@ == b@),
{
    match key_compare(a, b) {
        KeyOrder::Equal => true,
        KeyOrder::Less => {
            proof {
                lemma_key_lt_irreflexive(a@);
            }
            false
        },
        KeyOrder::Greater => {
            proof {
                lemma_key_lt_irreflexive(a@);
            }
            false
        },
    }
}

} // verus!
