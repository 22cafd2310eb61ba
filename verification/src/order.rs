//! The order in which lists are shown: a key made of a rank and a text,
//! compared rank first and then text by code point, and a stable sort by
//! such keys.

use vstd::prelude::*;

verus! {

/// `a` comes before `b` in lexicographic order of code points.
pub open spec fn chars_lt(a: Seq<char>, b: Seq<char>) -> bool
    decreases a.len(),
{
    if a.len() == 0 {
        b.len() > 0
    } else if b.len() == 0 {
        false
    } else if a[0] != b[0] {
        a[0] < b[0]
    } else {
        chars_lt(a.drop_first(), b.drop_first())
    }
}

/// A sort key: lists are ordered by `rank` first, then by `text`.
pub struct SortKey {
    pub rank: u8,
    pub text: Vec<char>,
}

impl View for SortKey {
    type V = (u8, Seq<char>);

    open spec fn view(&self) -> (u8, Seq<char>) {
        (self.rank, self.text@)
    }
}

/// The views of a list of keys.
pub open spec fn key_views(keys: Seq<SortKey>) -> Seq<(u8, Seq<char>)> {
    keys.map_values(|k: SortKey| k@)
}

/// Strict order of keys.
pub open spec fn key_lt(a: (u8, Seq<char>), b: (u8, Seq<char>)) -> bool {
    a.0 < b.0 || (a.0 == b.0 && chars_lt(a.1, b.1))
}

/// `p` lists each index of `0 .. n` exactly once.
pub open spec fn is_index_permutation(p: Seq<int>, n: int) -> bool {
    &&& p.len() == n
    &&& forall|k: int| 0 <= k < n ==> 0 <= #[trigger] p[k] < n
    &&& forall|k: int, l: int| 0 <= k < l < n ==> p[k] != p[l]
}

/// `out` is `keys` rearranged by `p` (`out[k] == keys[p[k]]`), in key
/// order, with items of equal keys kept in their original order.
pub open spec fn is_stable_sort(keys: Seq<(u8, Seq<char>)>, out: Seq<(u8, Seq<char>)>, p: Seq<int>) -> bool {
    &&& is_index_permutation(p, keys.len() as int)
    &&& out.len() == keys.len()
    &&& forall|k: int| 0 <= k < out.len() ==> #[trigger] out[k] == keys[p[k]]
    &&& forall|k: int, l: int|
        0 <= k < l < out.len() ==> key_lt(#[trigger] out[k], #[trigger] out[l]) || (out[k] == out[l]
            && p[k] < p[l])
}

/// Lexicographic order of code points has no ties between distinct texts.
pub proof fn lemma_chars_trichotomy(a: Seq<char>, b: Seq<char>)
    ensures
        chars_lt(a, b) || chars_lt(b, a) || a == b,
        !(chars_lt(a, b) && chars_lt(b, a)),
        !chars_lt(a, a),
    decreases a.len(),
{
    if a.len() > 0 && b.len() > 0 {
        lemma_chars_trichotomy(a.drop_first(), b.drop_first());
        if a[0] == b[0] && a.drop_first() == b.drop_first() {
            assert(a =~= seq![a[0]] + a.drop_first());
            assert(b =~= seq![b[0]] + b.drop_first());
        }
    } else if a.len() == 0 && b.len() == 0 {
        assert(a =~= b);
    }
    if a.len() > 0 {
        lemma_chars_trichotomy(a.drop_first(), a.drop_first());
    }
}

/// Lexicographic order of code points is transitive.
pub proof fn lemma_chars_transitive(a: Seq<char>, b: Seq<char>, c: Seq<char>)
    requires
        chars_lt(a, b),
        chars_lt(b, c),
    ensures
        chars_lt(a, c),
    decreases a.len(),
{
    if a.len() > 0 && b.len() > 0 && c.len() > 0 && a[0] == b[0] && b[0] == c[0] {
        lemma_chars_transitive(a.drop_first(), b.drop_first(), c.drop_first());
    }
}

proof fn lemma_key_order(a: (u8, Seq<char>), b: (u8, Seq<char>), c: (u8, Seq<char>))
    ensures
        key_lt(a, b) || key_lt(b, a) || a == b,
        !(key_lt(a, b) && key_lt(b, a)),
        !key_lt(a, a),
        key_lt(a, b) && key_lt(b, c) ==> key_lt(a, c),
{
    lemma_chars_trichotomy(a.1, b.1);
    lemma_chars_trichotomy(a.1, a.1);
    if key_lt(a, b) && key_lt(b, c) && a.0 == b.0 && b.0 == c.0 {
        lemma_chars_transitive(a.1, b.1, c.1);
    }
}

/// `a` comes before `b` in lexicographic order of code points.
pub fn chars_less(a: &Vec<char>, b: &Vec<char>) -> (r: bool)
    ensures
        r == chars_lt(a@, b@),
{
    let mut i: usize = 0;
    assert(a@.skip(0) =~= a@);
    assert(b@.skip(0) =~= b@);
    while i < a.len() && i < b.len() && a[i] == b[i]
        invariant
            i <= a.len(),
            i <= b.len(),
            chars_lt(a@, b@) == chars_lt(a@.skip(i as int), b@.skip(i as int)),
        decreases a.len() - i,
    {
        assert(a@.skip(i as int).drop_first() =~= a@.skip(i + 1));
        assert(b@.skip(i as int).drop_first() =~= b@.skip(i + 1));
        i = i + 1;
    }
    if i == a.len() {
        i < b.len()
    } else if i == b.len() {
        false
    } else {
        a[i] < b[i]
    }
}

/// `a` comes before `b` as sort keys.
pub fn key_less(a: &SortKey, b: &SortKey) -> (r: bool)
    ensures
        r == key_lt(a@, b@),
{
    if a.rank != b.rank {
        a.rank < b.rank
    } else {
        chars_less(&a.text, &b.text)
    }
}

/// Sorts `items` by `keys` (the key of `items[k]` is `keys[k]`), keeping
/// items of equal keys in their original order. Gives the sorted items and
/// their keys.
pub fn stable_sort<T>(items: Vec<T>, keys: Vec<SortKey>) -> (r: (Vec<T>, Vec<SortKey>))
    requires
        items.len() == keys.len(),
    ensures
        exists|p: Seq<int>|
            {
                &&& #[trigger] is_stable_sort(key_views(keys@), key_views(r.1@), p)
                &&& r.0@.len() == items@.len()
                &&& forall|k: int| 0 <= k < r.0@.len() ==> #[trigger] r.0@[k] == items@[p[k]]
            },
{
    let ghost in_items = items@;
    let ghost in_keys = key_views(keys@);
    let n = items.len();
    let mut rest_items = items;
    let mut rest_keys = keys;
    let mut out_items: Vec<T> = Vec::new();
    let mut out_keys: Vec<SortKey> = Vec::new();
    let ghost mut p: Seq<int> = Seq::empty();
    let mut i: usize = 0;
    while i < n
        invariant
            n == in_items.len(),
            n == in_keys.len(),
            i <= n,
            rest_items@ == in_items.skip(i as int),
            key_views(rest_keys@) == in_keys.skip(i as int),
            out_items@.len() == i,
            out_keys@.len() == i,
            p.len() == i,
            forall|k: int| 0 <= k < i ==> 0 <= #[trigger] p[k] < i,
            forall|k: int, l: int| 0 <= k < l < i ==> p[k] != p[l],
            forall|k: int| 0 <= k < i ==> #[trigger] out_items@[k] == in_items[p[k]],
            forall|k: int| 0 <= k < i ==> #[trigger] out_keys@[k]@ == in_keys[p[k]],
            forall|k: int, l: int|
                0 <= k < l < i ==> key_lt(#[trigger] out_keys@[k]@, #[trigger] out_keys@[l]@) || (
                out_keys@[k]@ == out_keys@[l]@ && p[k] < p[l]),
        decreases n - i,
    {
        assert(rest_items@.len() == n - i);
        assert(key_views(rest_keys@).len() == n - i);
        let ghost before_keys = rest_keys@;
        let item = rest_items.remove(0);
        let key = rest_keys.remove(0);
        assert forall|j: int| 0 <= j < rest_keys@.len() implies #[trigger] key_views(rest_keys@)[j] == in_keys.skip(i + 1)[j] by {
            assert(rest_keys@[j] == before_keys[j + 1]);
            assert(key_views(before_keys)[j + 1] == in_keys.skip(i as int)[j + 1]);
        }
        assert(item == in_items[i as int]);
        assert(key@ == in_keys[i as int]) by {
            assert(in_keys.skip(i as int)[0] == in_keys[i as int]);
        }
        assert(rest_items@ =~= in_items.skip(i + 1));
        assert(key_views(rest_keys@) =~= in_keys.skip(i + 1));
        let mut pos: usize = 0;
        while pos < out_keys.len() && !key_less(&key, &out_keys[pos])
            invariant
                pos <= out_keys@.len(),
                forall|k: int| 0 <= k < pos ==> !key_lt(key@, #[trigger] out_keys@[k]@),
            decreases out_keys@.len() - pos,
        {
            pos = pos + 1;
        }
        let ghost old_keys = out_keys@;
        let ghost old_items = out_items@;
        let ghost old_p = p;
        proof {
            assert forall|k: int| 0 <= k < pos implies #[trigger] key_lt(old_keys[k]@, key@) || (
            old_keys[k]@ == key@ && old_p[k] < i) by {
                lemma_key_order(old_keys[k]@, key@, key@);
            }
            assert forall|l: int| pos <= l < i implies #[trigger] key_lt(key@, old_keys[l]@) by {
                if l > pos {
                    lemma_key_order(key@, old_keys[pos as int]@, old_keys[l]@);
                    lemma_key_order(old_keys[pos as int]@, old_keys[l]@, old_keys[l]@);
                }
            }
        }
        out_items.insert(pos, item);
        out_keys.insert(pos, key);
        proof {
            p = old_p.insert(pos as int, i as int);
            assert forall|k: int, l: int|
                0 <= k < l < i + 1 implies key_lt(#[trigger] out_keys@[k]@, #[trigger] out_keys@[l]@) || (
            out_keys@[k]@ == out_keys@[l]@ && p[k] < p[l]) by {
                if k < pos && l < pos {
                } else if k < pos && l == pos {
                } else if k < pos && l > pos {
                    assert(out_keys@[l] == old_keys[l - 1]);
                    lemma_key_order(old_keys[k]@, key@, old_keys[l - 1]@);
                } else if k == pos {
                    assert(out_keys@[l] == old_keys[l - 1]);
                } else {
                    assert(out_keys@[l] == old_keys[l - 1]);
                    assert(out_keys@[k] == old_keys[k - 1]);
                }
            }
            assert forall|k: int| 0 <= k < i + 1 implies 0 <= #[trigger] p[k] < i + 1 by {
                if k < pos {
                } else if k > pos {
                    assert(p[k] == old_p[k - 1]);
                }
            }
            assert forall|k: int, l: int| 0 <= k < l < i + 1 implies p[k] != p[l] by {
                if k < pos && l > pos {
                    assert(p[l] == old_p[l - 1]);
                } else if k > pos {
                    assert(p[l] == old_p[l - 1]);
                    assert(p[k] == old_p[k - 1]);
                } else if k == pos {
                    assert(p[l] == old_p[l - 1]);
                }
            }
            assert forall|k: int| 0 <= k < i + 1 implies #[trigger] out_items@[k] == in_items[p[k]] by {
                if k > pos {
                    assert(out_items@[k] == old_items[k - 1]);
                    assert(p[k] == old_p[k - 1]);
                }
            }
            assert forall|k: int| 0 <= k < i + 1 implies #[trigger] out_keys@[k]@ == in_keys[p[k]] by {
                if k > pos {
                    assert(out_keys@[k] == old_keys[k - 1]);
                    assert(p[k] == old_p[k - 1]);
                }
            }
        }
        i = i + 1;
    }
    proof {
        let ok = key_views(out_keys@);
        assert forall|k: int| 0 <= k < ok.len() implies #[trigger] ok[k] == in_keys[p[k]] by {
            assert(ok[k] == out_keys@[k]@);
        }
        assert forall|k: int, l: int|
            0 <= k < l < ok.len() implies key_lt(#[trigger] ok[k], #[trigger] ok[l]) || (ok[k] == ok[l] && p[k] < p[l]) by {
            assert(ok[k] == out_keys@[k]@);
            assert(ok[l] == out_keys@[l]@);
        }
        assert(is_stable_sort(key_views(keys@), key_views(out_keys@), p));
        assert(forall|k: int| 0 <= k < out_items@.len() ==> #[trigger] out_items@[k] == items@[p[k]]);
    }
    let ghost q = p;
    let result = (out_items, out_keys);
    assert(is_stable_sort(key_views(keys@), key_views(result.1@), q));
    assert(forall|k: int| 0 <= k < result.0@.len() ==> #[trigger] result.0@[k] == items@[q[k]]);
    result
}

/// Keys for sorting texts by their characters alone.
pub open spec fn text_keys(texts: Seq<String>) -> Seq<(u8, Seq<char>)> {
    texts.map_values(|t: String| (0u8, t@))
}

/// Sorts `texts` into lexicographic order of their characters.
pub fn sort_texts(texts: Vec<String>) -> (r: Vec<String>)
    ensures
        exists|p: Seq<int>| #[trigger] is_stable_sort(text_keys(texts@), text_keys(r@), p),
{
    let mut keys: Vec<SortKey> = Vec::new();
    let mut i: usize = 0;
    while i < texts.len()
        invariant
            i <= texts.len(),
            keys@.len() == i,
            forall|k: int| 0 <= k < i ==> #[trigger] keys@[k]@ == (0u8, texts@[k]@),
        decreases texts.len() - i,
    {
        let text = crate::text::chars_of(texts[i].as_str());
        keys.push(SortKey { rank: 0, text });
        i = i + 1;
    }
    let ghost in_texts = texts@;
    assert(key_views(keys@) =~= text_keys(texts@));
    let (sorted, sorted_keys) = stable_sort(texts, keys);
    proof {
        let p = choose|p: Seq<int>|
            {
                &&& #[trigger] is_stable_sort(key_views(keys@), key_views(sorted_keys@), p)
                &&& sorted@.len() == in_texts.len()
                &&& forall|k: int| 0 <= k < sorted@.len() ==> #[trigger] sorted@[k] == in_texts[p[k]]
            };
        assert forall|k: int| 0 <= k < sorted@.len() implies #[trigger] key_views(sorted_keys@)[k] == text_keys(sorted@)[k] by {
            assert(key_views(sorted_keys@)[k] == key_views(keys@)[p[k]]);
        }
        assert(key_views(sorted_keys@) =~= text_keys(sorted@));
        assert(is_stable_sort(text_keys(in_texts), text_keys(sorted@), p));
    }
    sorted
}

/// A stable sort leaves no two items out of key order.
pub proof fn lemma_stable_sort_ordered(keys: Seq<(u8, Seq<char>)>, out: Seq<(u8, Seq<char>)>, p: Seq<int>)
    requires
        is_stable_sort(keys, out, p),
    ensures
        forall|k: int, l: int| 0 <= k < l < out.len() ==> !key_lt(#[trigger] out[l], #[trigger] out[k]),
{
    assert forall|k: int, l: int| 0 <= k < l < out.len() implies !key_lt(#[trigger] out[l], #[trigger] out[k]) by {
        lemma_key_order(out[k], out[l], out[l]);
    }
}

} // verus!
