use vstd::prelude::*;

use vstd::string::StrSliceExecFns;

use crate::graph::{Graph, GraphView};

verus! {

/// `a` comes before `b` when strings are compared character by character
/// by code point, a proper prefix coming first.
pub open spec fn char_seq_less(a: Seq<char>, b: Seq<char>) -> bool
    decreases a.len(),
{
    if b.len() == 0 {
        false
    } else if a.len() == 0 {
        true
    } else if a[0] != b[0] {
        (a[0] as u32) < (b[0] as u32)
    } else {
        char_seq_less(a.drop_first(), b.drop_first())
    }
}

/// Whether `a` comes before `b`, character by character by code point.
fn name_less(a: &String, b: &String) -> (r: bool)
    ensures
        r == char_seq_less(a@, b@),
{
    let sa = a.as_str();
    let sb = b.as_str();
    let la = sa.unicode_len();
    let lb = sb.unicode_len();
    let mut i: usize = 0;
    proof {
        assert(a@.subrange(0, la as int) =~= a@);
        assert(b@.subrange(0, lb as int) =~= b@);
    }
    while i < la && i < lb
        invariant
            la == a@.len(),
            lb == b@.len(),
            sa@ == a@,
            sb@ == b@,
            i <= la,
            i <= lb,
            char_seq_less(a@, b@) == char_seq_less(
                a@.subrange(i as int, la as int),
                b@.subrange(i as int, lb as int),
            ),
        decreases la - i,
    {
        let ca = sa.get_char(i);
        let cb = sb.get_char(i);
        proof {
            let ra = a@.subrange(i as int, la as int);
            let rb = b@.subrange(i as int, lb as int);
            assert(ra[0] == ca && rb[0] == cb);
            assert(ra.drop_first() =~= a@.subrange(i + 1, la as int));
            assert(rb.drop_first() =~= b@.subrange(i + 1, lb as int));
        }
        if ca != cb {
            return (ca as u32) < (cb as u32);
        }
        i = i + 1;
    }
    i < lb
}

/// The name of the item that edge `k` leads to.
pub open spec fn edge_key(g: GraphView, k: int) -> Seq<char> {
    g.items[g.edges[k].target as int].name@
}

/// `s` with edge `k` inserted, from position `i` on, before the first edge
/// whose target's name is greater.
pub open spec fn insert_from(g: GraphView, s: Seq<usize>, k: usize, i: int) -> Seq<usize>
    decreases s.len() - i,
{
    if i < 0 || i >= s.len() {
        seq![k]
    } else if char_seq_less(edge_key(g, k as int), edge_key(g, s[i] as int)) {
        seq![k] + s.subrange(i, s.len() as int)
    } else {
        seq![s[i]] + insert_from(g, s, k, i + 1)
    }
}

/// The edges `0..m`, sorted by the name of their target, equal names in
/// edge order.
pub open spec fn sort_upto(g: GraphView, m: nat) -> Seq<usize>
    decreases m,
{
    if m == 0 {
        Seq::empty()
    } else {
        insert_from(g, sort_upto(g, (m - 1) as nat), (m - 1) as usize, 0)
    }
}

/// All edges of `g`, sorted by the name of their target, equal names in
/// edge order.
pub open spec fn name_order(g: GraphView) -> Seq<usize> {
    sort_upto(g, g.edges.len())
}

proof fn lemma_insert_from_elems(g: GraphView, s: Seq<usize>, k: usize, i: int, b: int)
    requires
        0 <= i,
        k < b,
        forall|j: int| 0 <= j < s.len() ==> #[trigger] s[j] < b,
    ensures
        forall|j: int|
            0 <= j < insert_from(g, s, k, i).len() ==> #[trigger] insert_from(g, s, k, i)[j] < b,
    decreases s.len() - i,
{
    if i < s.len() {
        lemma_insert_from_elems(g, s, k, i + 1, b);
        let r = insert_from(g, s, k, i);
        if char_seq_less(edge_key(g, k as int), edge_key(g, s[i] as int)) {
            assert forall|j: int| 0 <= j < r.len() implies #[trigger] r[j] < b by {
                if j > 0 {
                    assert(r[j] == s[i + j - 1]);
                }
            }
        } else {
            assert forall|j: int| 0 <= j < r.len() implies #[trigger] r[j] < b by {
                if j > 0 {
                    assert(r[j] == insert_from(g, s, k, i + 1)[j - 1]);
                }
            }
        }
    }
}

proof fn lemma_sort_upto_elems(g: GraphView, m: nat)
    ensures
        forall|j: int| 0 <= j < sort_upto(g, m).len() ==> #[trigger] sort_upto(g, m)[j] < m,
    decreases m,
{
    if m > 0 {
        lemma_sort_upto_elems(g, (m - 1) as nat);
        lemma_insert_from_elems(g, sort_upto(g, (m - 1) as nat), (m - 1) as usize, 0, m as int);
    }
}

/// `s` with edge `k` inserted before the first edge whose target's name is greater.
fn insert_by_name(g: &Graph, s: &Vec<usize>, k: usize) -> (r: Vec<usize>)
    requires
        k < g@.edges.len(),
        forall|j: int| 0 <= j < s@.len() ==> #[trigger] s@[j] < g@.edges.len(),
    ensures
        r@ == insert_from(g@, s@, k, 0),
{
    let key = &g.item(g.edge(k).target).name;
    let mut r: Vec<usize> = Vec::new();
    let mut i: usize = 0;
    while i < s.len()
        invariant
            i <= s@.len(),
            k < g@.edges.len(),
            *key == g@.items[g@.edges[k as int].target as int].name,
            forall|j: int| 0 <= j < s@.len() ==> #[trigger] s@[j] < g@.edges.len(),
            insert_from(g@, s@, k, 0) == r@ + insert_from(g@, s@, k, i as int),
        decreases s@.len() - i,
    {
        let other = &g.item(g.edge(s[i]).target).name;
        if name_less(key, other) {
            let ghost base = r@;
            r.push(k);
            let mut j: usize = i;
            proof {
                assert(base + insert_from(g@, s@, k, i as int) =~= r@ + s@.subrange(
                    j as int,
                    s@.len() as int,
                ));
            }
            while j < s.len()
                invariant
                    i <= j <= s@.len(),
                    insert_from(g@, s@, k, 0) == r@ + s@.subrange(j as int, s@.len() as int),
                decreases s@.len() - j,
            {
                let ghost before = r@;
                r.push(s[j]);
                proof {
                    assert(before + s@.subrange(j as int, s@.len() as int) =~= r@ + s@.subrange(
                        j + 1,
                        s@.len() as int,
                    ));
                }
                j = j + 1;
            }
            proof {
                assert(r@ + s@.subrange(j as int, s@.len() as int) =~= r@);
            }
            return r;
        }
        let ghost before = r@;
        r.push(s[i]);
        proof {
            assert(before + insert_from(g@, s@, k, i as int) =~= r@ + insert_from(
                g@,
                s@,
                k,
                i + 1,
            ));
        }
        i = i + 1;
    }
    let ghost before = r@;
    r.push(k);
    proof {
        assert(before + insert_from(g@, s@, k, i as int) =~= r@);
    }
    r
}

/// The edges of `g` sorted by the name of their target, equal names in edge order.
pub fn name_order_exec(g: &Graph) -> (r: Vec<usize>)
    ensures
        r@ == name_order(g@),
        forall|j: int| 0 <= j < r@.len() ==> #[trigger] r@[j] < g@.edges.len(),
{
    let m = g.edge_count();
    let mut sorted: Vec<usize> = Vec::new();
    let mut k: usize = 0;
    while k < m
        invariant
            m == g@.edges.len(),
            k <= m,
            sorted@ == sort_upto(g@, k as nat),
        decreases m - k,
    {
        proof {
            lemma_sort_upto_elems(g@, k as nat);
        }
        sorted = insert_by_name(g, &sorted, k);
        k = k + 1;
    }
    proof {
        lemma_sort_upto_elems(g@, k as nat);
    }
    sorted
}

} // verus!
