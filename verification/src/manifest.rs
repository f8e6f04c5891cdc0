//! The persisted manifest: two mappings from a stored source form to its
//! mirror path, one for files and one for directories.
//!
//! Entries are held sorted by source form with no duplicate keys, so the
//! serialized manifest is stable across runs with the same logical content
//! and diff-friendly under version control.

use vstd::prelude::*;

use crate::paths::copy_bytes;
use crate::paths::DirPathInfo;
use crate::paths::FilePathInfo;

verus! {

/// Strict lexicographic order on byte strings: a proper prefix sorts
/// before its extensions.
pub open spec fn bytes_lt(a: Seq<u8>, b: Seq<u8>) -> bool
    decreases a.len(),
{
    if b.len() == 0 {
        false
    } else if a.len() == 0 {
        true
    } else if a[0] < b[0] {
        true
    } else if a[0] > b[0] {
        false
    } else {
        bytes_lt(a.drop_first(), b.drop_first())
    }
}

/// Exactly one of `a == b`, `a < b`, `b < a` holds.
pub proof fn lemma_bytes_lt_trichotomy(a: Seq<u8>, b: Seq<u8>)
    ensures
        bytes_lt(a, b) || bytes_lt(b, a) || a == b,
        bytes_lt(a, b) ==> !bytes_lt(b, a) && a != b,
        bytes_lt(b, a) ==> !bytes_lt(a, b) && a != b,
        a == b ==> !bytes_lt(a, b) && !bytes_lt(b, a),
    decreases a.len(),
{
    if a.len() == 0 && b.len() == 0 {
        assert(a =~= b);
    } else if a.len() > 0 && b.len() > 0 && a[0] == b[0] {
        lemma_bytes_lt_trichotomy(a.drop_first(), b.drop_first());
        if a.drop_first() == b.drop_first() {
            assert(a.len() == b.len());
            assert forall|i: int| 1 <= i < a.len() implies a[i] == b[i] by {
                assert(a[i] == a.drop_first()[i - 1]);
                assert(b[i] == b.drop_first()[i - 1]);
            }
            assert(a =~= b);
        }
        if a == b {
            assert(a.drop_first() =~= b.drop_first());
        }
    } else {
        if a == b && a.len() > 0 {
            assert(a[0] == b[0]);
        }
    }
}

/// The order is transitive.
pub proof fn lemma_bytes_lt_trans(a: Seq<u8>, b: Seq<u8>, c: Seq<u8>)
    requires
        bytes_lt(a, b),
        bytes_lt(b, c),
    ensures
        bytes_lt(a, c),
    decreases a.len(),
{
    if a.len() > 0 && b.len() > 0 && c.len() > 0 {
        if a[0] == b[0] && b[0] == c[0] {
            lemma_bytes_lt_trans(a.drop_first(), b.drop_first(), c.drop_first());
        }
    }
}

/// Sharing a prefix, two byte strings compare as their tails do.
pub proof fn lemma_bytes_lt_skip(a: Seq<u8>, b: Seq<u8>, i: int)
    requires
        0 <= i <= a.len(),
        i <= b.len(),
        forall|j: int| 0 <= j < i ==> a[j] == b[j],
    ensures
        bytes_lt(a, b) == bytes_lt(a.skip(i), b.skip(i)),
    decreases i,
{
    if i > 0 {
        assert(a.len() > 0 && b.len() > 0 && a[0] == b[0]);
        lemma_bytes_lt_skip(a.drop_first(), b.drop_first(), i - 1);
        assert(a.drop_first().skip(i - 1) =~= a.skip(i));
        assert(b.drop_first().skip(i - 1) =~= b.skip(i));
    } else {
        assert(a.skip(0) =~= a);
        assert(b.skip(0) =~= b);
    }
}

/// Whether `a` sorts strictly before `b`.
pub(crate) fn bytes_is_lt(a: &Vec<u8>, b: &Vec<u8>) -> (r: bool)
    ensures
        r == bytes_lt(a@, b@),
{
    let mut i: usize = 0;
    loop
        invariant
            i <= a@.len(),
            i <= b@.len(),
            forall|j: int| 0 <= j < i ==> a@[j] == b@[j],
        decreases a@.len() - i,
    {
        proof {
            lemma_bytes_lt_skip(a@, b@, i as int);
        }
        if i >= a.len() {
            proof {
                assert(a@.skip(i as int).len() == 0);
            }
            return i < b.len();
        }
        if i >= b.len() {
            proof {
                assert(b@.skip(i as int).len() == 0);
            }
            return false;
        }
        let x = a[i];
        let y = b[i];
        proof {
            assert(a@.skip(i as int)[0] == x);
            assert(b@.skip(i as int)[0] == y);
        }
        if x < y {
            return true;
        }
        if x > y {
            return false;
        }
        i += 1;
    }
}

/// One tracked entry: the stored source form and its mirror path.
#[derive(Debug, PartialEq, Eq)]
pub struct ManifestEntry {
    pub src_path: Vec<u8>,
    pub config_repo_path: Vec<u8>,
}

impl View for ManifestEntry {
    type V = (Seq<u8>, Seq<u8>);

    open spec fn view(&self) -> (Seq<u8>, Seq<u8>) {
        (self.src_path@, self.config_repo_path@)
    }
}

/// The mathematical content of an entry list.
pub open spec fn entry_views(s: Seq<ManifestEntry>) -> Seq<(Seq<u8>, Seq<u8>)> {
    s.map_values(|e: ManifestEntry| e@)
}

/// Keys strictly increase along the list: sorted, with no duplicates.
pub open spec fn sorted_entries(s: Seq<(Seq<u8>, Seq<u8>)>) -> bool {
    forall|i: int, j: int| 0 <= i < j < s.len() ==> bytes_lt(#[trigger] s[i].0, #[trigger] s[j].0)
}

/// Whether some entry has key `k`.
pub open spec fn has_key(s: Seq<(Seq<u8>, Seq<u8>)>, k: Seq<u8>) -> bool {
    exists|i: int| 0 <= i < s.len() && (#[trigger] s[i]).0 == k
}

/// The mapping an entry list denotes; on duplicate keys the earliest entry
/// wins, and a sorted list has none.
pub open spec fn as_map(s: Seq<(Seq<u8>, Seq<u8>)>) -> Map<Seq<u8>, Seq<u8>>
    decreases s.len(),
{
    if s.len() == 0 {
        Map::<Seq<u8>, Seq<u8>>::empty()
    } else {
        as_map(s.drop_first()).insert(s[0].0, s[0].1)
    }
}

/// The list with `(k, v)` bound: an existing binding of `k` is replaced,
/// otherwise the pair enters at its sorted position.
pub open spec fn insert_sorted(s: Seq<(Seq<u8>, Seq<u8>)>, k: Seq<u8>, v: Seq<u8>) -> Seq<
    (Seq<u8>, Seq<u8>),
>
    decreases s.len(),
{
    if s.len() == 0 {
        seq![(k, v)]
    } else if bytes_lt(k, s[0].0) {
        seq![(k, v)] + s
    } else if k == s[0].0 {
        seq![(k, v)] + s.drop_first()
    } else {
        seq![s[0]] + insert_sorted(s.drop_first(), k, v)
    }
}

/// The list without the first binding of `k`; a sorted list has at most
/// one.
pub open spec fn remove_key(s: Seq<(Seq<u8>, Seq<u8>)>, k: Seq<u8>) -> Seq<(Seq<u8>, Seq<u8>)>
    decreases s.len(),
{
    if s.len() == 0 {
        s
    } else if s[0].0 == k {
        s.drop_first()
    } else {
        seq![s[0]] + remove_key(s.drop_first(), k)
    }
}

/// Inserting keeps the list sorted, binds `k`, and leaves every other key
/// alone.
pub proof fn lemma_insert_sorted_props(s: Seq<(Seq<u8>, Seq<u8>)>, k: Seq<u8>, v: Seq<u8>)
    requires
        sorted_entries(s),
    ensures
        sorted_entries(insert_sorted(s, k, v)),
        forall|i: int|
            0 <= i < insert_sorted(s, k, v).len() ==> (#[trigger] insert_sorted(s, k, v)[i]).0 == k
                || has_key(s, insert_sorted(s, k, v)[i].0),
        has_key(insert_sorted(s, k, v), k),
    decreases s.len(),
{
    let out = insert_sorted(s, k, v);
    if s.len() == 0 {
        assert(out[0] == (k, v));
    } else if bytes_lt(k, s[0].0) {
        assert forall|i: int, j: int| 0 <= i < j < out.len() implies bytes_lt(
            #[trigger] out[i].0,
            #[trigger] out[j].0,
        ) by {
            if i == 0 {
                if j > 1 {
                    lemma_bytes_lt_trans(k, s[0].0, s[j - 1].0);
                }
            }
        }
        assert(out[0] == (k, v));
        assert forall|i: int| 0 <= i < out.len() implies (#[trigger] out[i]).0 == k || has_key(
            s,
            out[i].0,
        ) by {
            if i > 0 {
                assert(out[i] == s[i - 1]);
            }
        }
    } else if k == s[0].0 {
        assert(out[0] == (k, v));
        assert forall|i: int, j: int| 0 <= i < j < out.len() implies bytes_lt(
            #[trigger] out[i].0,
            #[trigger] out[j].0,
        ) by {
            if i == 0 {
                assert(out[j] == s[j]);
            } else {
                assert(out[i] == s[i] && out[j] == s[j]);
            }
        }
        assert forall|i: int| 0 <= i < out.len() implies (#[trigger] out[i]).0 == k || has_key(
            s,
            out[i].0,
        ) by {
            if i > 0 {
                assert(out[i] == s[i]);
            }
        }
    } else {
        lemma_bytes_lt_trichotomy(k, s[0].0);
        assert(sorted_entries(s.drop_first())) by {
            assert(forall|i: int, j: int|
                0 <= i < j < s.drop_first().len() ==> (#[trigger] s.drop_first()[i]).0
                    == s[i + 1].0 && (#[trigger] s.drop_first()[j]).0 == s[j + 1].0);
        }
        lemma_insert_sorted_props(s.drop_first(), k, v);
        let sub = insert_sorted(s.drop_first(), k, v);
        assert forall|i: int, j: int| 0 <= i < j < out.len() implies bytes_lt(
            #[trigger] out[i].0,
            #[trigger] out[j].0,
        ) by {
            if i == 0 {
                assert(out[j] == sub[j - 1]);
                if sub[j - 1].0 == k {
                } else {
                    assert(has_key(s.drop_first(), sub[j - 1].0));
                    let w = choose|w: int|
                        0 <= w < s.drop_first().len() && (#[trigger] s.drop_first()[w]).0 == sub[j
                            - 1].0;
                    assert(s.drop_first()[w] == s[w + 1]);
                    assert(bytes_lt(s[0].0, s[w + 1].0));
                }
            } else {
                assert(out[i] == sub[i - 1] && out[j] == sub[j - 1]);
            }
        }
        assert forall|i: int| 0 <= i < out.len() implies (#[trigger] out[i]).0 == k || has_key(
            s,
            out[i].0,
        ) by {
            if i == 0 {
                assert(out[0] == s[0]);
            } else {
                assert(out[i] == sub[i - 1]);
                if sub[i - 1].0 != k {
                    assert(has_key(s.drop_first(), sub[i - 1].0));
                    let w = choose|w: int|
                        0 <= w < s.drop_first().len() && (#[trigger] s.drop_first()[w]).0 == sub[i
                            - 1].0;
                    assert(s.drop_first()[w] == s[w + 1]);
                }
            }
        }
        assert(has_key(sub, k));
        let w = choose|w: int| 0 <= w < sub.len() && (#[trigger] sub[w]).0 == k;
        assert(out[w + 1] == sub[w]);
    }
}

/// Binding the same pair twice is the same as binding it once.
pub proof fn lemma_insert_sorted_idempotent(s: Seq<(Seq<u8>, Seq<u8>)>, k: Seq<u8>, v: Seq<u8>)
    requires
        sorted_entries(s),
    ensures
        insert_sorted(insert_sorted(s, k, v), k, v) == insert_sorted(s, k, v),
    decreases s.len(),
{
    let once = insert_sorted(s, k, v);
    lemma_bytes_lt_trichotomy(k, k);
    if s.len() == 0 {
        assert(once == seq![(k, v)]);
        assert(once[0].0 == k);
        assert(insert_sorted(once, k, v) =~= seq![(k, v)] + once.drop_first());
        assert(seq![(k, v)] + once.drop_first() =~= once);
    } else if bytes_lt(k, s[0].0) {
        lemma_bytes_lt_trichotomy(k, s[0].0);
        assert(once[0] == (k, v));
        assert(insert_sorted(once, k, v) =~= seq![(k, v)] + once.drop_first());
        assert(seq![(k, v)] + once.drop_first() =~= once);
    } else if k == s[0].0 {
        assert(once[0] == (k, v));
        assert(insert_sorted(once, k, v) =~= seq![(k, v)] + once.drop_first());
        assert(seq![(k, v)] + once.drop_first() =~= once);
    } else {
        lemma_bytes_lt_trichotomy(k, s[0].0);
        assert(sorted_entries(s.drop_first())) by {
            assert(forall|i: int, j: int|
                0 <= i < j < s.drop_first().len() ==> (#[trigger] s.drop_first()[i]).0
                    == s[i + 1].0 && (#[trigger] s.drop_first()[j]).0 == s[j + 1].0);
        }
        lemma_insert_sorted_idempotent(s.drop_first(), k, v);
        assert(once[0] == s[0]);
        assert(once.drop_first() =~= insert_sorted(s.drop_first(), k, v));
        assert(insert_sorted(once, k, v) =~= seq![s[0]] + insert_sorted(once.drop_first(), k, v));
    }
}

/// Removing a key that is not bound changes nothing.
pub proof fn lemma_remove_key_absent(s: Seq<(Seq<u8>, Seq<u8>)>, k: Seq<u8>)
    requires
        !has_key(s, k),
    ensures
        remove_key(s, k) == s,
    decreases s.len(),
{
    if s.len() > 0 {
        assert(s[0].0 != k);
        assert(!has_key(s.drop_first(), k)) by {
            if has_key(s.drop_first(), k) {
                let w = choose|w: int|
                    0 <= w < s.drop_first().len() && (#[trigger] s.drop_first()[w]).0 == k;
                assert(s[w + 1].0 == k);
            }
        }
        lemma_remove_key_absent(s.drop_first(), k);
        assert(seq![s[0]] + s.drop_first() =~= s);
    }
}

/// Removing keeps the list sorted and drops exactly the bindings of `k`.
pub proof fn lemma_remove_key_props(s: Seq<(Seq<u8>, Seq<u8>)>, k: Seq<u8>)
    requires
        sorted_entries(s),
    ensures
        sorted_entries(remove_key(s, k)),
        !has_key(remove_key(s, k), k),
        forall|i: int|
            0 <= i < remove_key(s, k).len() ==> has_key(s, (#[trigger] remove_key(s, k)[i]).0),
    decreases s.len(),
{
    let out = remove_key(s, k);
    if s.len() > 0 {
        assert(sorted_entries(s.drop_first())) by {
            assert(forall|i: int, j: int|
                0 <= i < j < s.drop_first().len() ==> (#[trigger] s.drop_first()[i]).0
                    == s[i + 1].0 && (#[trigger] s.drop_first()[j]).0 == s[j + 1].0);
        }
        if s[0].0 == k {
            assert(out =~= s.drop_first());
            assert(!has_key(out, k)) by {
                if has_key(out, k) {
                    let w = choose|w: int| 0 <= w < out.len() && (#[trigger] out[w]).0 == k;
                    assert(s[w + 1].0 == k);
                    assert(bytes_lt(s[0].0, s[w + 1].0));
                    lemma_bytes_lt_trichotomy(s[0].0, s[w + 1].0);
                }
            }
            assert forall|i: int| 0 <= i < out.len() implies has_key(s, (#[trigger] out[i]).0) by {
                assert(out[i] == s[i + 1]);
            }
        } else {
            lemma_remove_key_props(s.drop_first(), k);
            let sub = remove_key(s.drop_first(), k);
            assert forall|i: int, j: int| 0 <= i < j < out.len() implies bytes_lt(
                #[trigger] out[i].0,
                #[trigger] out[j].0,
            ) by {
                if i == 0 {
                    assert(out[j] == sub[j - 1]);
                    assert(has_key(s.drop_first(), sub[j - 1].0));
                    let w = choose|w: int|
                        0 <= w < s.drop_first().len() && (#[trigger] s.drop_first()[w]).0 == sub[j
                            - 1].0;
                    assert(s.drop_first()[w] == s[w + 1]);
                    assert(bytes_lt(s[0].0, s[w + 1].0));
                } else {
                    assert(out[i] == sub[i - 1] && out[j] == sub[j - 1]);
                }
            }
            assert(!has_key(out, k)) by {
                if has_key(out, k) {
                    let w = choose|w: int| 0 <= w < out.len() && (#[trigger] out[w]).0 == k;
                    if w == 0 {
                        assert(out[0] == s[0]);
                    } else {
                        assert(out[w] == sub[w - 1]);
                    }
                }
            }
            assert forall|i: int| 0 <= i < out.len() implies has_key(s, (#[trigger] out[i]).0) by {
                if i > 0 {
                    assert(out[i] == sub[i - 1]);
                    assert(has_key(s.drop_first(), sub[i - 1].0));
                    let w = choose|w: int|
                        0 <= w < s.drop_first().len() && (#[trigger] s.drop_first()[w]).0 == sub[i
                            - 1].0;
                    assert(s[w + 1].0 == sub[i - 1].0);
                }
            }
        }
    }
}

/// A key is bound exactly when some entry carries it.
pub proof fn lemma_as_map_has_key(s: Seq<(Seq<u8>, Seq<u8>)>, k: Seq<u8>)
    ensures
        has_key(s, k) <==> as_map(s).dom().contains(k),
    decreases s.len(),
{
    if s.len() > 0 {
        lemma_as_map_has_key(s.drop_first(), k);
        if has_key(s, k) {
            let w = choose|w: int| 0 <= w < s.len() && (#[trigger] s[w]).0 == k;
            if w > 0 {
                assert(s.drop_first()[w - 1].0 == k);
            }
        }
        if has_key(s.drop_first(), k) {
            let w = choose|w: int|
                0 <= w < s.drop_first().len() && (#[trigger] s.drop_first()[w]).0 == k;
            assert(s[w + 1].0 == k);
        }
    }
}

/// Inserting into the list is inserting into its mapping.
pub proof fn lemma_as_map_insert(s: Seq<(Seq<u8>, Seq<u8>)>, k: Seq<u8>, v: Seq<u8>)
    requires
        sorted_entries(s),
    ensures
        as_map(insert_sorted(s, k, v)) == as_map(s).insert(k, v),
    decreases s.len(),
{
    let out = insert_sorted(s, k, v);
    if s.len() == 0 {
        assert(out.drop_first() =~= Seq::<(Seq<u8>, Seq<u8>)>::empty());
        assert(out[0] == (k, v));
        assert(as_map(out) == as_map(out.drop_first()).insert(k, v));
        assert(as_map(out.drop_first()) =~= Map::<Seq<u8>, Seq<u8>>::empty());
        assert(as_map(out) =~= as_map(s).insert(k, v));
    } else if bytes_lt(k, s[0].0) {
        assert(out.drop_first() =~= s);
        assert(as_map(out) =~= as_map(s).insert(k, v));
    } else if k == s[0].0 {
        assert(out.drop_first() =~= s.drop_first());
        assert(as_map(out) == as_map(s.drop_first()).insert(k, v));
        assert(as_map(s).insert(k, v) =~= as_map(s.drop_first()).insert(k, v));
    } else {
        lemma_bytes_lt_trichotomy(k, s[0].0);
        assert(sorted_entries(s.drop_first())) by {
            assert(forall|i: int, j: int|
                0 <= i < j < s.drop_first().len() ==> (#[trigger] s.drop_first()[i]).0
                    == s[i + 1].0 && (#[trigger] s.drop_first()[j]).0 == s[j + 1].0);
        }
        lemma_as_map_insert(s.drop_first(), k, v);
        assert(out[0] == s[0]);
        assert(out.drop_first() =~= insert_sorted(s.drop_first(), k, v));
        assert(as_map(out) == as_map(s.drop_first()).insert(k, v).insert(s[0].0, s[0].1));
        assert(as_map(s.drop_first()).insert(k, v).insert(s[0].0, s[0].1) =~= as_map(
            s.drop_first(),
        ).insert(s[0].0, s[0].1).insert(k, v));
    }
}

/// Removing from the list is removing from its mapping.
pub proof fn lemma_as_map_remove(s: Seq<(Seq<u8>, Seq<u8>)>, k: Seq<u8>)
    requires
        sorted_entries(s),
    ensures
        as_map(remove_key(s, k)) == as_map(s).remove(k),
    decreases s.len(),
{
    lemma_bytes_lt_trichotomy(k, k);
    if s.len() == 0 {
        assert(as_map(remove_key(s, k)) =~= as_map(s).remove(k));
    } else {
        assert(sorted_entries(s.drop_first())) by {
            assert(forall|i: int, j: int|
                0 <= i < j < s.drop_first().len() ==> (#[trigger] s.drop_first()[i]).0
                    == s[i + 1].0 && (#[trigger] s.drop_first()[j]).0 == s[j + 1].0);
        }
        if s[0].0 == k {
            assert(!has_key(s.drop_first(), k)) by {
                if has_key(s.drop_first(), k) {
                    let w = choose|w: int|
                        0 <= w < s.drop_first().len() && (#[trigger] s.drop_first()[w]).0 == k;
                    assert(s[w + 1].0 == k);
                    assert(bytes_lt(s[0].0, s[w + 1].0));
                    lemma_bytes_lt_trichotomy(s[0].0, s[w + 1].0);
                }
            }
            lemma_as_map_has_key(s.drop_first(), k);
            assert(as_map(s).remove(k) =~= as_map(s.drop_first()));
        } else {
            lemma_as_map_remove(s.drop_first(), k);
            assert(remove_key(s, k)[0] == s[0]);
            assert(remove_key(s, k).drop_first() =~= remove_key(s.drop_first(), k));
            assert(as_map(remove_key(s, k)) == as_map(s.drop_first()).remove(k).insert(
                s[0].0,
                s[0].1,
            ));
            assert(as_map(s.drop_first()).remove(k).insert(s[0].0, s[0].1) =~= as_map(
                s.drop_first(),
            ).insert(s[0].0, s[0].1).remove(k));
        }
    }
}

/// Where the scan stopped is where the insertion happens: before the first
/// key not below `k`, replacing it if it is `k` itself.
proof fn lemma_insert_sorted_split(s: Seq<(Seq<u8>, Seq<u8>)>, k: Seq<u8>, v: Seq<u8>, i: int)
    requires
        sorted_entries(s),
        0 <= i <= s.len(),
        forall|j: int| 0 <= j < i ==> bytes_lt((#[trigger] s[j]).0, k),
        i < s.len() ==> !bytes_lt(s[i].0, k),
    ensures
        insert_sorted(s, k, v) == if i < s.len() && s[i].0 == k {
            s.update(i, (k, v))
        } else {
            s.subrange(0, i) + seq![(k, v)] + s.skip(i)
        },
    decreases i,
{
    if i == 0 {
        if s.len() == 0 {
            assert(insert_sorted(s, k, v) =~= s.subrange(0, 0) + seq![(k, v)] + s.skip(0));
        } else {
            lemma_bytes_lt_trichotomy(k, s[0].0);
            if s[0].0 == k {
                assert(insert_sorted(s, k, v) =~= s.update(0, (k, v)));
            } else {
                assert(bytes_lt(k, s[0].0));
                assert(insert_sorted(s, k, v) =~= s.subrange(0, 0) + seq![(k, v)] + s.skip(0));
            }
        }
    } else {
        lemma_bytes_lt_trichotomy(k, s[0].0);
        assert(bytes_lt(s[0].0, k));
        assert(sorted_entries(s.drop_first())) by {
            assert(forall|a: int, b: int|
                0 <= a < b < s.drop_first().len() ==> (#[trigger] s.drop_first()[a]).0
                    == s[a + 1].0 && (#[trigger] s.drop_first()[b]).0 == s[b + 1].0);
        }
        assert(forall|j: int|
            0 <= j < i - 1 ==> bytes_lt((#[trigger] s.drop_first()[j]).0, k)) by {
            assert(forall|j: int|
                0 <= j < i - 1 ==> (#[trigger] s.drop_first()[j]).0 == s[j + 1].0);
        }
        assert(i - 1 < s.drop_first().len() ==> !bytes_lt(s.drop_first()[i - 1].0, k));
        lemma_insert_sorted_split(s.drop_first(), k, v, i - 1);
        if i < s.len() && s[i].0 == k {
            assert(s.drop_first()[i - 1].0 == k);
            assert(insert_sorted(s, k, v) =~= s.update(i, (k, v)));
        } else {
            assert(insert_sorted(s, k, v) =~= s.subrange(0, i) + seq![(k, v)] + s.skip(i));
        }
    }
}

/// Where the scan found `k` is where the removal happens.
proof fn lemma_remove_key_split(s: Seq<(Seq<u8>, Seq<u8>)>, k: Seq<u8>, i: int)
    requires
        0 <= i < s.len(),
        forall|j: int| 0 <= j < i ==> (#[trigger] s[j]).0 != k,
        s[i].0 == k,
    ensures
        remove_key(s, k) == s.subrange(0, i) + s.skip(i + 1),
    decreases i,
{
    if i == 0 {
        assert(remove_key(s, k) =~= s.subrange(0, 0) + s.skip(1));
    } else {
        assert(forall|j: int| 0 <= j < i - 1 ==> (#[trigger] s.drop_first()[j]).0 == s[j + 1].0);
        assert(s.drop_first()[i - 1].0 == k);
        lemma_remove_key_split(s.drop_first(), k, i - 1);
        assert(remove_key(s, k) =~= s.subrange(0, i) + s.skip(i + 1));
    }
}

/// The position of the first entry whose key is not below `key`.
fn lower_bound(list: &Vec<ManifestEntry>, key: &Vec<u8>) -> (i: usize)
    ensures
        i <= list@.len(),
        forall|j: int| 0 <= j < i ==> bytes_lt((#[trigger] entry_views(list@)[j]).0, key@),
        i < list@.len() ==> !bytes_lt(entry_views(list@)[i as int].0, key@),
{
    let mut i: usize = 0;
    loop
        invariant
            i <= list@.len(),
            forall|j: int| 0 <= j < i ==> bytes_lt((#[trigger] entry_views(list@)[j]).0, key@),
        decreases list@.len() - i,
    {
        if i >= list.len() {
            return i;
        }
        if !bytes_is_lt(&list[i].src_path, key) {
            proof {
                assert(entry_views(list@)[i as int].0 == list@[i as int].src_path@);
            }
            return i;
        }
        proof {
            assert(entry_views(list@)[i as int].0 == list@[i as int].src_path@);
        }
        i += 1;
    }
}

/// Binds `(src_path, config_repo_path)` in a sorted entry list, replacing
/// an existing binding of the same source form.
fn insert_entry(list: &mut Vec<ManifestEntry>, e: ManifestEntry)
    requires
        sorted_entries(entry_views(old(list)@)),
    ensures
        entry_views(final(list)@) == insert_sorted(
            entry_views(old(list)@),
            e.src_path@,
            e.config_repo_path@,
        ),
{
    let ghost vs = entry_views(list@);
    let i = lower_bound(list, &e.src_path);
    proof {
        lemma_insert_sorted_split(vs, e.src_path@, e.config_repo_path@, i as int);
    }
    if i < list.len() && list[i].src_path == e.src_path {
        proof {
            assert(list@[i as int].src_path@ =~= e.src_path@);
            assert(vs[i as int].0 == e.src_path@);
        }
        list.set(i, e);
        proof {
            assert(entry_views(list@) =~= vs.update(i as int, (e.src_path@, e.config_repo_path@)));
        }
    } else {
        proof {
            if i < list@.len() {
                assert(vs[i as int].0 == list@[i as int].src_path@);
                if vs[i as int].0 == e.src_path@ {
                    assert(list@[i as int].src_path@ == e.src_path@);
                    assert(list@[i as int].src_path@ =~= e.src_path@);
                }
            }
        }
        list.insert(i, e);
        proof {
            assert(entry_views(list@) =~= vs.subrange(0, i as int) + seq![
                (e.src_path@, e.config_repo_path@),
            ] + vs.skip(i as int));
        }
    }
}

/// Drops the binding of `key` from a sorted entry list, if there is one.
fn remove_entry(list: &mut Vec<ManifestEntry>, key: &Vec<u8>)
    ensures
        entry_views(final(list)@) == remove_key(entry_views(old(list)@), key@),
{
    let ghost vs = entry_views(list@);
    let mut i: usize = 0;
    loop
        invariant
            i <= list@.len(),
            vs == entry_views(list@),
            vs == entry_views(old(list)@),
            forall|j: int| 0 <= j < i ==> (#[trigger] entry_views(list@)[j]).0 != key@,
        decreases list@.len() - i,
    {
        if i >= list.len() {
            proof {
                assert(!has_key(vs, key@));
                lemma_remove_key_absent(vs, key@);
            }
            return ;
        }
        if list[i].src_path == *key {
            proof {
                assert(list@[i as int].src_path@ =~= key@);
                assert(vs[i as int].0 == key@);
                lemma_remove_key_split(vs, key@, i as int);
            }
            list.remove(i);
            proof {
                assert(entry_views(list@) =~= vs.subrange(0, i as int) + vs.skip(i + 1));
            }
            return ;
        }
        proof {
            assert(vs[i as int].0 == list@[i as int].src_path@);
            if vs[i as int].0 == key@ {
                assert(list@[i as int].src_path@ =~= key@);
            }
        }
        i += 1;
    }
}

/// Whether some entry of the list carries `key`.
fn entries_contain(list: &Vec<ManifestEntry>, key: &Vec<u8>) -> (r: bool)
    ensures
        r == has_key(entry_views(list@), key@),
{
    let mut i: usize = 0;
    loop
        invariant
            i <= list@.len(),
            forall|j: int| 0 <= j < i ==> (#[trigger] entry_views(list@)[j]).0 != key@,
        decreases list@.len() - i,
    {
        if i >= list.len() {
            return false;
        }
        if list[i].src_path == *key {
            proof {
                assert(entry_views(list@)[i as int].0 =~= key@);
            }
            return true;
        }
        proof {
            assert(entry_views(list@)[i as int].0 == list@[i as int].src_path@);
            if entry_views(list@)[i as int].0 == key@ {
                assert(list@[i as int].src_path@ =~= key@);
            }
        }
        i += 1;
    }
}

/// The manifest file's name inside the managed root, `config.toml`.
pub open spec fn config_file_name() -> Seq<u8> {
    seq![99u8, 111u8, 110u8, 102u8, 105u8, 103u8, 46u8, 116u8, 111u8, 109u8, 108u8]
}

/// The key/value pairs a batch of file entries registers.
pub open spec fn file_kv(s: Seq<FilePathInfo>) -> Seq<(Seq<u8>, Seq<u8>)> {
    s.map_values(|f: FilePathInfo| (f.src_path@, f.config_repo_path@))
}

/// The key/value pairs a batch of directory entries registers.
pub open spec fn dir_kv(s: Seq<DirPathInfo>) -> Seq<(Seq<u8>, Seq<u8>)> {
    s.map_values(|d: DirPathInfo| (d.src_path@, d.config_repo_path@))
}

/// The keys a batch of file entries deregisters.
pub open spec fn file_keys(s: Seq<FilePathInfo>) -> Seq<Seq<u8>> {
    s.map_values(|f: FilePathInfo| f.src_path@)
}

/// The keys a batch of directory entries deregisters.
pub open spec fn dir_keys(s: Seq<DirPathInfo>) -> Seq<Seq<u8>> {
    s.map_values(|d: DirPathInfo| d.src_path@)
}

/// The list after binding every pair of `es`, in order.
pub open spec fn insert_all(s: Seq<(Seq<u8>, Seq<u8>)>, es: Seq<(Seq<u8>, Seq<u8>)>) -> Seq<
    (Seq<u8>, Seq<u8>),
>
    decreases es.len(),
{
    if es.len() == 0 {
        s
    } else {
        insert_all(insert_sorted(s, es[0].0, es[0].1), es.drop_first())
    }
}

/// The list after dropping every key of `ks`, in order.
pub open spec fn remove_all(s: Seq<(Seq<u8>, Seq<u8>)>, ks: Seq<Seq<u8>>) -> Seq<(Seq<u8>, Seq<u8>)>
    decreases ks.len(),
{
    if ks.len() == 0 {
        s
    } else {
        remove_all(remove_key(s, ks[0]), ks.drop_first())
    }
}

/// Binding one more pair after a batch binds it last.
pub proof fn lemma_insert_all_push(s: Seq<(Seq<u8>, Seq<u8>)>, es: Seq<(Seq<u8>, Seq<u8>)>, e: (
    Seq<u8>,
    Seq<u8>,
))
    ensures
        insert_all(s, es.push(e)) == insert_sorted(insert_all(s, es), e.0, e.1),
    decreases es.len(),
{
    assert(es.push(e).len() == es.len() + 1);
    if es.len() == 0 {
        assert(es.push(e)[0] == e);
        assert(es.push(e).drop_first() =~= Seq::<(Seq<u8>, Seq<u8>)>::empty());
        assert(insert_all(s, es.push(e)) == insert_all(
            insert_sorted(s, e.0, e.1),
            es.push(e).drop_first(),
        ));
        assert(insert_all(insert_sorted(s, e.0, e.1), es.push(e).drop_first()) == insert_sorted(
            s,
            e.0,
            e.1,
        ));
        assert(insert_all(s, es) == s);
    } else {
        assert(es.push(e)[0] == es[0]);
        assert(es.push(e).drop_first() =~= es.drop_first().push(e));
        lemma_insert_all_push(insert_sorted(s, es[0].0, es[0].1), es.drop_first(), e);
        assert(insert_all(s, es.push(e)) == insert_all(
            insert_sorted(s, es[0].0, es[0].1),
            es.drop_first().push(e),
        ));
        assert(insert_all(s, es) == insert_all(
            insert_sorted(s, es[0].0, es[0].1),
            es.drop_first(),
        ));
    }
}

/// Dropping one more key after a batch drops it last.
pub proof fn lemma_remove_all_push(s: Seq<(Seq<u8>, Seq<u8>)>, ks: Seq<Seq<u8>>, k: Seq<u8>)
    ensures
        remove_all(s, ks.push(k)) == remove_key(remove_all(s, ks), k),
    decreases ks.len(),
{
    assert(ks.push(k).len() == ks.len() + 1);
    if ks.len() == 0 {
        assert(ks.push(k)[0] == k);
        assert(ks.push(k).drop_first() =~= Seq::<Seq<u8>>::empty());
        assert(remove_all(s, ks.push(k)) == remove_all(remove_key(s, k), ks.push(k).drop_first()));
        assert(remove_all(remove_key(s, k), ks.push(k).drop_first()) == remove_key(s, k));
        assert(remove_all(s, ks) == s);
    } else {
        assert(ks.push(k)[0] == ks[0]);
        assert(ks.push(k).drop_first() =~= ks.drop_first().push(k));
        lemma_remove_all_push(remove_key(s, ks[0]), ks.drop_first(), k);
        assert(remove_all(s, ks.push(k)) == remove_all(
            remove_key(s, ks[0]),
            ks.drop_first().push(k),
        ));
        assert(remove_all(s, ks) == remove_all(remove_key(s, ks[0]), ks.drop_first()));
    }
}

/// Batch binding keeps the list sorted.
pub proof fn lemma_insert_all_sorted(s: Seq<(Seq<u8>, Seq<u8>)>, es: Seq<(Seq<u8>, Seq<u8>)>)
    requires
        sorted_entries(s),
    ensures
        sorted_entries(insert_all(s, es)),
    decreases es.len(),
{
    if es.len() > 0 {
        lemma_insert_sorted_props(s, es[0].0, es[0].1);
        lemma_insert_all_sorted(insert_sorted(s, es[0].0, es[0].1), es.drop_first());
    }
}

/// Batch dropping keeps the list sorted.
pub proof fn lemma_remove_all_sorted(s: Seq<(Seq<u8>, Seq<u8>)>, ks: Seq<Seq<u8>>)
    requires
        sorted_entries(s),
    ensures
        sorted_entries(remove_all(s, ks)),
    decreases ks.len(),
{
    if ks.len() > 0 {
        lemma_remove_key_props(s, ks[0]);
        lemma_remove_all_sorted(remove_key(s, ks[0]), ks.drop_first());
    }
}

/// The manifest's two mappings: tracked files and tracked directories,
/// each a sorted list from stored source form to mirror path.
#[derive(Debug)]
pub struct ConfigData {
    files: Vec<ManifestEntry>,
    dirs: Vec<ManifestEntry>,
}

impl ConfigData {
    /// The file entries, in key order.
    pub closed spec fn files_seq(&self) -> Seq<(Seq<u8>, Seq<u8>)> {
        entry_views(self.files@)
    }

    /// The directory entries, in key order.
    pub closed spec fn dirs_seq(&self) -> Seq<(Seq<u8>, Seq<u8>)> {
        entry_views(self.dirs@)
    }

    /// The mapping of tracked files.
    pub open spec fn files_map(&self) -> Map<Seq<u8>, Seq<u8>> {
        as_map(self.files_seq())
    }

    /// The mapping of tracked directories.
    pub open spec fn dirs_map(&self) -> Map<Seq<u8>, Seq<u8>> {
        as_map(self.dirs_seq())
    }

    /// Both lists are sorted with no duplicate keys.
    pub open spec fn wf(&self) -> bool {
        sorted_entries(self.files_seq()) && sorted_entries(self.dirs_seq())
    }

    /// An empty manifest: nothing is tracked.
    pub fn new() -> (r: ConfigData)
        ensures
            r.wf(),
            r.files_seq() == Seq::<(Seq<u8>, Seq<u8>)>::empty(),
            r.dirs_seq() == Seq::<(Seq<u8>, Seq<u8>)>::empty(),
    {
        let r = ConfigData { files: Vec::new(), dirs: Vec::new() };
        proof {
            assert(r.files_seq() =~= Seq::<(Seq<u8>, Seq<u8>)>::empty());
            assert(r.dirs_seq() =~= Seq::<(Seq<u8>, Seq<u8>)>::empty());
        }
        r
    }

    /// Registers a file entry; an entry with the same source form is
    /// replaced.
    pub fn add_file(&mut self, file: &FilePathInfo)
        requires
            old(self).wf(),
        ensures
            final(self).wf(),
            final(self).files_seq() == insert_sorted(
                old(self).files_seq(),
                file.src_path@,
                file.config_repo_path@,
            ),
            final(self).files_map() == old(self).files_map().insert(
                file.src_path@,
                file.config_repo_path@,
            ),
            final(self).dirs_seq() == old(self).dirs_seq(),
    {
        let e = ManifestEntry {
            src_path: copy_bytes(&file.src_path),
            config_repo_path: copy_bytes(&file.config_repo_path),
        };
        proof {
            lemma_insert_sorted_props(self.files_seq(), file.src_path@, file.config_repo_path@);
            lemma_as_map_insert(self.files_seq(), file.src_path@, file.config_repo_path@);
        }
        insert_entry(&mut self.files, e);
    }

    /// Registers a directory entry; an entry with the same source form is
    /// replaced.
    pub fn add_dir(&mut self, dir: &DirPathInfo)
        requires
            old(self).wf(),
        ensures
            final(self).wf(),
            final(self).dirs_seq() == insert_sorted(
                old(self).dirs_seq(),
                dir.src_path@,
                dir.config_repo_path@,
            ),
            final(self).dirs_map() == old(self).dirs_map().insert(
                dir.src_path@,
                dir.config_repo_path@,
            ),
            final(self).files_seq() == old(self).files_seq(),
    {
        let e = ManifestEntry {
            src_path: copy_bytes(&dir.src_path),
            config_repo_path: copy_bytes(&dir.config_repo_path),
        };
        proof {
            lemma_insert_sorted_props(self.dirs_seq(), dir.src_path@, dir.config_repo_path@);
            lemma_as_map_insert(self.dirs_seq(), dir.src_path@, dir.config_repo_path@);
        }
        insert_entry(&mut self.dirs, e);
    }

    /// Deregisters the file entry stored under `path`, if any.
    pub fn remove_file(&mut self, path: &Vec<u8>)
        requires
            old(self).wf(),
        ensures
            final(self).wf(),
            final(self).files_seq() == remove_key(old(self).files_seq(), path@),
            final(self).files_map() == old(self).files_map().remove(path@),
            final(self).dirs_seq() == old(self).dirs_seq(),
    {
        proof {
            lemma_remove_key_props(self.files_seq(), path@);
            lemma_as_map_remove(self.files_seq(), path@);
        }
        remove_entry(&mut self.files, path);
    }

    /// Deregisters the directory entry stored under `path`, if any.
    pub fn remove_dir(&mut self, path: &Vec<u8>)
        requires
            old(self).wf(),
        ensures
            final(self).wf(),
            final(self).dirs_seq() == remove_key(old(self).dirs_seq(), path@),
            final(self).dirs_map() == old(self).dirs_map().remove(path@),
            final(self).files_seq() == old(self).files_seq(),
    {
        proof {
            lemma_remove_key_props(self.dirs_seq(), path@);
            lemma_as_map_remove(self.dirs_seq(), path@);
        }
        remove_entry(&mut self.dirs, path);
    }
}

/// Owns the manifest for the duration of one command invocation: all
/// mutation is in memory; persistence happens only through the codec.
#[derive(Debug)]
pub struct ConfigManager {
    config_data: ConfigData,
}

impl ConfigManager {
    /// The file entries, in key order.
    pub closed spec fn files_seq(&self) -> Seq<(Seq<u8>, Seq<u8>)> {
        self.config_data.files_seq()
    }

    /// The directory entries, in key order.
    pub closed spec fn dirs_seq(&self) -> Seq<(Seq<u8>, Seq<u8>)> {
        self.config_data.dirs_seq()
    }

    /// The mapping of tracked files.
    pub open spec fn files_map(&self) -> Map<Seq<u8>, Seq<u8>> {
        as_map(self.files_seq())
    }

    /// The mapping of tracked directories.
    pub open spec fn dirs_map(&self) -> Map<Seq<u8>, Seq<u8>> {
        as_map(self.dirs_seq())
    }

    /// Both lists are sorted with no duplicate keys.
    pub open spec fn wf(&self) -> bool {
        sorted_entries(self.files_seq()) && sorted_entries(self.dirs_seq())
    }

    /// A manager over an empty manifest.
    pub fn new() -> (r: ConfigManager)
        ensures
            r.wf(),
            r.files_seq() == Seq::<(Seq<u8>, Seq<u8>)>::empty(),
            r.dirs_seq() == Seq::<(Seq<u8>, Seq<u8>)>::empty(),
    {
        ConfigManager { config_data: ConfigData::new() }
    }

    /// A manager over the given manifest data.
    pub fn from_data(config_data: ConfigData) -> (r: ConfigManager)
        requires
            config_data.wf(),
        ensures
            r.wf(),
            r.files_seq() == config_data.files_seq(),
            r.dirs_seq() == config_data.dirs_seq(),
    {
        ConfigManager { config_data }
    }

    /// The manifest file's name relative to the managed root.
    pub fn config_file_repo_path(&self) -> (r: Vec<u8>)
        ensures
            r@ == config_file_name(),
    {
        let mut v: Vec<u8> = Vec::new();
        v.push(99);
        v.push(111);
        v.push(110);
        v.push(102);
        v.push(105);
        v.push(103);
        v.push(46);
        v.push(116);
        v.push(111);
        v.push(109);
        v.push(108);
        proof {
            assert(v@ =~= config_file_name());
        }
        v
    }

    /// Registers a batch of file entries, in order.
    pub fn add_files(&mut self, files: &Vec<FilePathInfo>)
        requires
            old(self).wf(),
        ensures
            final(self).wf(),
            final(self).files_seq() == insert_all(old(self).files_seq(), file_kv(files@)),
            final(self).dirs_seq() == old(self).dirs_seq(),
    {
        let ghost s0 = self.files_seq();
        let ghost d0 = self.dirs_seq();
        let mut i: usize = 0;
        proof {
            assert(file_kv(files@.subrange(0, 0)) =~= Seq::<(Seq<u8>, Seq<u8>)>::empty());
        }
        while i < files.len()
            invariant
                i <= files@.len(),
                self.wf(),
                self.files_seq() == insert_all(s0, file_kv(files@.subrange(0, i as int))),
                self.dirs_seq() == d0,
                sorted_entries(s0),
            decreases files@.len() - i,
        {
            let f = &files[i];
            proof {
                assert(files@.subrange(0, i + 1) =~= files@.subrange(0, i as int).push(
                    files@[i as int],
                ));
                assert(file_kv(files@.subrange(0, i as int).push(files@[i as int])) =~= file_kv(
                    files@.subrange(0, i as int),
                ).push((files@[i as int].src_path@, files@[i as int].config_repo_path@)));
                lemma_insert_all_push(
                    s0,
                    file_kv(files@.subrange(0, i as int)),
                    (files@[i as int].src_path@, files@[i as int].config_repo_path@),
                );
            }
            self.config_data.add_file(f);
            i += 1;
        }
        proof {
            assert(files@.subrange(0, files@.len() as int) =~= files@);
        }
    }

    /// Registers a batch of directory entries, in order.
    pub fn add_dirs(&mut self, paths: &Vec<DirPathInfo>)
        requires
            old(self).wf(),
        ensures
            final(self).wf(),
            final(self).dirs_seq() == insert_all(old(self).dirs_seq(), dir_kv(paths@)),
            final(self).files_seq() == old(self).files_seq(),
    {
        let ghost s0 = self.dirs_seq();
        let ghost f0 = self.files_seq();
        let mut i: usize = 0;
        proof {
            assert(dir_kv(paths@.subrange(0, 0)) =~= Seq::<(Seq<u8>, Seq<u8>)>::empty());
        }
        while i < paths.len()
            invariant
                i <= paths@.len(),
                self.wf(),
                self.dirs_seq() == insert_all(s0, dir_kv(paths@.subrange(0, i as int))),
                self.files_seq() == f0,
                sorted_entries(s0),
            decreases paths@.len() - i,
        {
            let d = &paths[i];
            proof {
                assert(paths@.subrange(0, i + 1) =~= paths@.subrange(0, i as int).push(
                    paths@[i as int],
                ));
                assert(dir_kv(paths@.subrange(0, i as int).push(paths@[i as int])) =~= dir_kv(
                    paths@.subrange(0, i as int),
                ).push((paths@[i as int].src_path@, paths@[i as int].config_repo_path@)));
                lemma_insert_all_push(
                    s0,
                    dir_kv(paths@.subrange(0, i as int)),
                    (paths@[i as int].src_path@, paths@[i as int].config_repo_path@),
                );
            }
            self.config_data.add_dir(d);
            i += 1;
        }
        proof {
            assert(paths@.subrange(0, paths@.len() as int) =~= paths@);
        }
    }

    /// Deregisters a batch of file entries by their stored source forms.
    pub fn remove_files(&mut self, paths: &Vec<FilePathInfo>)
        requires
            old(self).wf(),
        ensures
            final(self).wf(),
            final(self).files_seq() == remove_all(old(self).files_seq(), file_keys(paths@)),
            final(self).dirs_seq() == old(self).dirs_seq(),
    {
        let ghost s0 = self.files_seq();
        let ghost d0 = self.dirs_seq();
        let mut i: usize = 0;
        proof {
            assert(file_keys(paths@.subrange(0, 0)) =~= Seq::<Seq<u8>>::empty());
        }
        while i < paths.len()
            invariant
                i <= paths@.len(),
                self.wf(),
                self.files_seq() == remove_all(s0, file_keys(paths@.subrange(0, i as int))),
                self.dirs_seq() == d0,
                sorted_entries(s0),
            decreases paths@.len() - i,
        {
            let f = &paths[i];
            proof {
                assert(paths@.subrange(0, i + 1) =~= paths@.subrange(0, i as int).push(
                    paths@[i as int],
                ));
                assert(file_keys(paths@.subrange(0, i as int).push(paths@[i as int])) =~= file_keys(
                    paths@.subrange(0, i as int),
                ).push(paths@[i as int].src_path@));
                lemma_remove_all_push(
                    s0,
                    file_keys(paths@.subrange(0, i as int)),
                    paths@[i as int].src_path@,
                );
            }
            self.config_data.remove_file(&f.src_path);
            i += 1;
        }
        proof {
            assert(paths@.subrange(0, paths@.len() as int) =~= paths@);
        }
    }

    /// Deregisters a batch of directory entries by their stored source
    /// forms.
    pub fn remove_dirs(&mut self, paths: &Vec<DirPathInfo>)
        requires
            old(self).wf(),
        ensures
            final(self).wf(),
            final(self).dirs_seq() == remove_all(old(self).dirs_seq(), dir_keys(paths@)),
            final(self).files_seq() == old(self).files_seq(),
    {
        let ghost s0 = self.dirs_seq();
        let ghost f0 = self.files_seq();
        let mut i: usize = 0;
        proof {
            assert(dir_keys(paths@.subrange(0, 0)) =~= Seq::<Seq<u8>>::empty());
        }
        while i < paths.len()
            invariant
                i <= paths@.len(),
                self.wf(),
                self.dirs_seq() == remove_all(s0, dir_keys(paths@.subrange(0, i as int))),
                self.files_seq() == f0,
                sorted_entries(s0),
            decreases paths@.len() - i,
        {
            let d = &paths[i];
            proof {
                assert(paths@.subrange(0, i + 1) =~= paths@.subrange(0, i as int).push(
                    paths@[i as int],
                ));
                assert(dir_keys(paths@.subrange(0, i as int).push(paths@[i as int])) =~= dir_keys(
                    paths@.subrange(0, i as int),
                ).push(paths@[i as int].src_path@));
                lemma_remove_all_push(
                    s0,
                    dir_keys(paths@.subrange(0, i as int)),
                    paths@[i as int].src_path@,
                );
            }
            self.config_data.remove_dir(&d.src_path);
            i += 1;
        }
        proof {
            assert(paths@.subrange(0, paths@.len() as int) =~= paths@);
        }
    }

    /// Whether a file entry with the same stored source form is registered.
    pub fn contains_file(&self, file: &FilePathInfo) -> (r: bool)
        ensures
            r == self.files_map().dom().contains(file.src_path@),
    {
        proof {
            lemma_as_map_has_key(self.files_seq(), file.src_path@);
        }
        entries_contain(&self.config_data.files, &file.src_path)
    }

    /// Whether a directory entry with the same stored source form is
    /// registered.
    pub fn contains_dir(&self, dir: &DirPathInfo) -> (r: bool)
        ensures
            r == self.dirs_map().dom().contains(dir.src_path@),
    {
        proof {
            lemma_as_map_has_key(self.dirs_seq(), dir.src_path@);
        }
        entries_contain(&self.config_data.dirs, &dir.src_path)
    }

    /// Every tracked file, rebuilt from its stored pair, in key order.
    pub fn files(&self, paths: &crate::paths::Paths) -> (r: Vec<FilePathInfo>)
        requires
            paths.wf(),
        ensures
            r@.map_values(crate::paths::file_info_view_fn()) == self.files_seq().map_values(
                crate::paths::file_entry_from_config_fn(paths.home_dir@, paths.files_dir@),
            ),
    {
        let list = &self.config_data.files;
        let mut out: Vec<FilePathInfo> = Vec::new();
        let ghost target = self.files_seq().map_values(
            crate::paths::file_entry_from_config_fn(paths.home_dir@, paths.files_dir@),
        );
        let mut i: usize = 0;
        proof {
            assert(out@.map_values(crate::paths::file_info_view_fn()) =~= target.subrange(0, 0));
        }
        while i < list.len()
            invariant
                i <= list@.len(),
                paths.wf(),
                target.len() == list@.len(),
                target == entry_views(list@).map_values(
                    crate::paths::file_entry_from_config_fn(paths.home_dir@, paths.files_dir@),
                ),
                out@.map_values(crate::paths::file_info_view_fn()) == target.subrange(0, i as int),
            decreases list@.len() - i,
        {
            let entry = &list[i];
            let ghost before = out@.map_values(crate::paths::file_info_view_fn());
            let rebuilt = paths.resolve_file_paths_from_config_paths(
                &entry.src_path,
                &entry.config_repo_path,
            );
            proof {
                assert(entry_views(list@)[i as int] == (entry.src_path@, entry.config_repo_path@));
                assert(target[i as int] == crate::paths::spec_file_entry_from_config(
                    paths.home_dir@,
                    paths.files_dir@,
                    entry.src_path@,
                    entry.config_repo_path@,
                ));
            }
            out.push(rebuilt);
            proof {
                assert(out@.map_values(crate::paths::file_info_view_fn()) =~= before.push(rebuilt@));
                assert(out@.map_values(crate::paths::file_info_view_fn()) =~= target.subrange(0, i + 1));
            }
            i += 1;
        }
        proof {
            assert(target.subrange(0, target.len() as int) =~= target);
        }
        out
    }

    /// Every tracked directory, rebuilt from its stored pair, in key order.
    pub fn dirs(&self, paths: &crate::paths::Paths) -> (r: Vec<DirPathInfo>)
        requires
            paths.wf(),
        ensures
            r@.map_values(crate::paths::dir_info_view_fn()) == self.dirs_seq().map_values(
                crate::paths::dir_entry_from_config_fn(
                    paths.home_dir@,
                    paths.root_dir@,
                    paths.files_dir@,
                ),
            ),
    {
        let list = &self.config_data.dirs;
        let mut out: Vec<DirPathInfo> = Vec::new();
        let ghost target = self.dirs_seq().map_values(
            crate::paths::dir_entry_from_config_fn(
                paths.home_dir@,
                paths.root_dir@,
                paths.files_dir@,
            ),
        );
        let mut i: usize = 0;
        proof {
            assert(out@.map_values(crate::paths::dir_info_view_fn()) =~= target.subrange(0, 0));
        }
        while i < list.len()
            invariant
                i <= list@.len(),
                paths.wf(),
                target.len() == list@.len(),
                target == entry_views(list@).map_values(
                    crate::paths::dir_entry_from_config_fn(
                        paths.home_dir@,
                        paths.root_dir@,
                        paths.files_dir@,
                    ),
                ),
                out@.map_values(crate::paths::dir_info_view_fn()) == target.subrange(0, i as int),
            decreases list@.len() - i,
        {
            let entry = &list[i];
            let ghost before = out@.map_values(crate::paths::dir_info_view_fn());
            let rebuilt = paths.resolve_dir_paths_from_config_paths(
                &entry.src_path,
                &entry.config_repo_path,
            );
            proof {
                assert(entry_views(list@)[i as int] == (entry.src_path@, entry.config_repo_path@));
                assert(target[i as int] == crate::paths::spec_dir_entry_from_config(
                    paths.home_dir@,
                    paths.root_dir@,
                    paths.files_dir@,
                    entry.src_path@,
                    entry.config_repo_path@,
                ));
            }
            out.push(rebuilt);
            proof {
                assert(out@.map_values(crate::paths::dir_info_view_fn()) =~= before.push(rebuilt@));
                assert(out@.map_values(crate::paths::dir_info_view_fn()) =~= target.subrange(0, i + 1));
            }
            i += 1;
        }
        proof {
            assert(target.subrange(0, target.len() as int) =~= target);
        }
        out
    }
}

/// In a sorted list, each entry is the binding of its key.
pub proof fn lemma_as_map_index(s: Seq<(Seq<u8>, Seq<u8>)>, i: int)
    requires
        sorted_entries(s),
        0 <= i < s.len(),
    ensures
        as_map(s).dom().contains(s[i].0),
        as_map(s)[s[i].0] == s[i].1,
    decreases s.len(),
{
    if i == 0 {
    } else {
        assert(sorted_entries(s.drop_first())) by {
            assert(forall|a: int, b: int|
                0 <= a < b < s.drop_first().len() ==> (#[trigger] s.drop_first()[a]).0
                    == s[a + 1].0 && (#[trigger] s.drop_first()[b]).0 == s[b + 1].0);
        }
        assert(s.drop_first()[i - 1] == s[i]);
        lemma_as_map_index(s.drop_first(), i - 1);
        assert(bytes_lt(s[0].0, s[i].0));
        lemma_bytes_lt_trichotomy(s[0].0, s[i].0);
    }
}

/// A key is in the first entry or in the rest.
proof fn lemma_has_key_unfold(es: Seq<(Seq<u8>, Seq<u8>)>, k: Seq<u8>)
    requires
        es.len() > 0,
    ensures
        has_key(es, k) == (es[0].0 == k || has_key(es.drop_first(), k)),
{
    if has_key(es, k) {
        let w = choose|w: int| 0 <= w < es.len() && (#[trigger] es[w]).0 == k;
        if w > 0 {
            assert(es.drop_first()[w - 1].0 == k);
        }
    }
    if has_key(es.drop_first(), k) {
        let w = choose|w: int|
            0 <= w < es.drop_first().len() && (#[trigger] es.drop_first()[w]).0 == k;
        assert(es[w + 1].0 == k);
    }
}

/// The manifest representation is canonical: two sorted lists that denote
/// the same mapping are the same list. The on-disk form of a manifest is
/// therefore determined by its logical content alone.
pub proof fn lemma_sorted_canonical(s1: Seq<(Seq<u8>, Seq<u8>)>, s2: Seq<(Seq<u8>, Seq<u8>)>)
    requires
        sorted_entries(s1),
        sorted_entries(s2),
        as_map(s1) == as_map(s2),
    ensures
        s1 == s2,
    decreases s1.len(),
{
    if s1.len() == 0 {
        if s2.len() > 0 {
            lemma_as_map_index(s2, 0);
            lemma_as_map_has_key(s1, s2[0].0);
        }
        assert(s1 =~= s2);
    } else if s2.len() == 0 {
        lemma_as_map_index(s1, 0);
        lemma_as_map_has_key(s2, s1[0].0);
    } else {
        lemma_as_map_index(s1, 0);
        lemma_as_map_index(s2, 0);
        lemma_as_map_has_key(s2, s1[0].0);
        lemma_as_map_has_key(s1, s2[0].0);
        let i = choose|i: int| 0 <= i < s1.len() && (#[trigger] s1[i]).0 == s2[0].0;
        let j = choose|j: int| 0 <= j < s2.len() && (#[trigger] s2[j]).0 == s1[0].0;
        assert(s1[0].0 == s2[0].0) by {
            if s1[0].0 != s2[0].0 {
                assert(i > 0 && j > 0);
                assert(bytes_lt(s1[0].0, s1[i].0));
                assert(bytes_lt(s2[0].0, s2[j].0));
                lemma_bytes_lt_trans(s1[0].0, s2[0].0, s1[0].0);
                lemma_bytes_lt_trichotomy(s1[0].0, s1[0].0);
            }
        }
        assert(s1[0].1 == s2[0].1) by {
            assert(as_map(s1)[s1[0].0] == s1[0].1);
            assert(as_map(s2)[s2[0].0] == s2[0].1);
        }
        assert(sorted_entries(s1.drop_first())) by {
            assert(forall|a: int, b: int|
                0 <= a < b < s1.drop_first().len() ==> (#[trigger] s1.drop_first()[a]).0
                    == s1[a + 1].0 && (#[trigger] s1.drop_first()[b]).0 == s1[b + 1].0);
        }
        assert(sorted_entries(s2.drop_first())) by {
            assert(forall|a: int, b: int|
                0 <= a < b < s2.drop_first().len() ==> (#[trigger] s2.drop_first()[a]).0
                    == s2[a + 1].0 && (#[trigger] s2.drop_first()[b]).0 == s2[b + 1].0);
        }
        assert(!has_key(s1.drop_first(), s1[0].0)) by {
            if has_key(s1.drop_first(), s1[0].0) {
                let w = choose|w: int|
                    0 <= w < s1.drop_first().len() && (#[trigger] s1.drop_first()[w]).0 == s1[0].0;
                assert(s1[w + 1].0 == s1[0].0);
                assert(bytes_lt(s1[0].0, s1[w + 1].0));
                lemma_bytes_lt_trichotomy(s1[0].0, s1[0].0);
            }
        }
        assert(!has_key(s2.drop_first(), s2[0].0)) by {
            if has_key(s2.drop_first(), s2[0].0) {
                let w = choose|w: int|
                    0 <= w < s2.drop_first().len() && (#[trigger] s2.drop_first()[w]).0 == s2[0].0;
                assert(s2[w + 1].0 == s2[0].0);
                assert(bytes_lt(s2[0].0, s2[w + 1].0));
                lemma_bytes_lt_trichotomy(s2[0].0, s2[0].0);
            }
        }
        lemma_as_map_has_key(s1.drop_first(), s1[0].0);
        lemma_as_map_has_key(s2.drop_first(), s2[0].0);
        assert(as_map(s1.drop_first()) =~= as_map(s1).remove(s1[0].0));
        assert(as_map(s2.drop_first()) =~= as_map(s2).remove(s2[0].0));
        lemma_sorted_canonical(s1.drop_first(), s2.drop_first());
        assert(s1 =~= seq![s1[0]] + s1.drop_first());
        assert(s2 =~= seq![s2[0]] + s2.drop_first());
        assert(s1[0] == s2[0]) by {
            assert(s1[0] == (s1[0].0, s1[0].1));
            assert(s2[0] == (s2[0].0, s2[0].1));
        }
        assert(s1 =~= s2);
    }
}

/// The mapping after binding every pair of `es`, in order.
pub open spec fn map_insert_all(m: Map<Seq<u8>, Seq<u8>>, es: Seq<(Seq<u8>, Seq<u8>)>) -> Map<
    Seq<u8>,
    Seq<u8>,
>
    decreases es.len(),
{
    if es.len() == 0 {
        m
    } else {
        map_insert_all(m.insert(es[0].0, es[0].1), es.drop_first())
    }
}

/// Batch binding a list denotes batch binding its mapping.
pub proof fn lemma_as_map_insert_all(s: Seq<(Seq<u8>, Seq<u8>)>, es: Seq<(Seq<u8>, Seq<u8>)>)
    requires
        sorted_entries(s),
    ensures
        as_map(insert_all(s, es)) == map_insert_all(as_map(s), es),
    decreases es.len(),
{
    if es.len() > 0 {
        lemma_as_map_insert(s, es[0].0, es[0].1);
        lemma_insert_sorted_props(s, es[0].0, es[0].1);
        lemma_as_map_insert_all(insert_sorted(s, es[0].0, es[0].1), es.drop_first());
    }
}

/// Batch binding touches only the keys of the batch.
proof fn lemma_map_insert_all_frame(
    m: Map<Seq<u8>, Seq<u8>>,
    es: Seq<(Seq<u8>, Seq<u8>)>,
    k: Seq<u8>,
)
    requires
        !has_key(es, k),
    ensures
        map_insert_all(m, es).dom().contains(k) == m.dom().contains(k),
        m.dom().contains(k) ==> map_insert_all(m, es)[k] == m[k],
    decreases es.len(),
{
    if es.len() > 0 {
        lemma_has_key_unfold(es, k);
        lemma_map_insert_all_frame(m.insert(es[0].0, es[0].1), es.drop_first(), k);
    }
}

/// Two mappings that agree outside the keys of the batch agree after the
/// batch.
proof fn lemma_map_insert_all_agree(
    m1: Map<Seq<u8>, Seq<u8>>,
    m2: Map<Seq<u8>, Seq<u8>>,
    es: Seq<(Seq<u8>, Seq<u8>)>,
)
    requires
        forall|k: Seq<u8>|
            !(#[trigger] has_key(es, k)) ==> (m1.dom().contains(k) == m2.dom().contains(k) && (
            m1.dom().contains(k) ==> m1[k] == m2[k])),
    ensures
        map_insert_all(m1, es) == map_insert_all(m2, es),
    decreases es.len(),
{
    if es.len() == 0 {
        assert forall|k: Seq<u8>|
            #![trigger m1.dom().contains(k), m2.dom().contains(k)]
            m1.dom().contains(k) == m2.dom().contains(k) && (m1.dom().contains(k) ==> m1[k]
                == m2[k]) by {
            assert(!has_key(es, k));
        }
        assert(m1.dom() =~= m2.dom());
        assert(m1 =~= m2);
    } else {
        let m1b = m1.insert(es[0].0, es[0].1);
        let m2b = m2.insert(es[0].0, es[0].1);
        assert forall|k: Seq<u8>| !(#[trigger] has_key(es.drop_first(), k)) implies (
        m1b.dom().contains(k) == m2b.dom().contains(k) && (m1b.dom().contains(k) ==> m1b[k]
            == m2b[k])) by {
            lemma_has_key_unfold(es, k);
            if k != es[0].0 {
                assert(!has_key(es, k));
            }
        }
        lemma_map_insert_all_agree(m1b, m2b, es.drop_first());
    }
}

/// Registering the same batch of entries twice leaves exactly the manifest
/// that registering it once leaves: both the mapping and its sorted
/// representation, hence also the serialized form, are unchanged by the
/// second registration.
pub proof fn lemma_add_batch_idempotent(s: Seq<(Seq<u8>, Seq<u8>)>, es: Seq<(Seq<u8>, Seq<u8>)>)
    requires
        sorted_entries(s),
    ensures
        insert_all(insert_all(s, es), es) == insert_all(s, es),
{
    let t = insert_all(s, es);
    lemma_insert_all_sorted(s, es);
    lemma_insert_all_sorted(t, es);
    lemma_as_map_insert_all(s, es);
    lemma_as_map_insert_all(t, es);
    assert forall|k: Seq<u8>| !(#[trigger] has_key(es, k)) implies (as_map(t).dom().contains(k)
        == as_map(s).dom().contains(k) && (as_map(t).dom().contains(k) ==> as_map(t)[k] == as_map(
        s,
    )[k])) by {
        lemma_map_insert_all_frame(as_map(s), es, k);
    }
    lemma_map_insert_all_agree(as_map(t), as_map(s), es);
    lemma_sorted_canonical(insert_all(t, es), t);
}

/// Deregistering source forms that were never registered leaves the
/// manifest unchanged.
pub proof fn lemma_remove_batch_untracked(s: Seq<(Seq<u8>, Seq<u8>)>, ks: Seq<Seq<u8>>)
    requires
        forall|i: int| 0 <= i < ks.len() ==> !has_key(s, #[trigger] ks[i]),
    ensures
        remove_all(s, ks) == s,
    decreases ks.len(),
{
    if ks.len() > 0 {
        lemma_remove_key_absent(s, ks[0]);
        assert(forall|i: int|
            0 <= i < ks.drop_first().len() ==> #[trigger] ks.drop_first()[i] == ks[i + 1]);
        lemma_remove_batch_untracked(s, ks.drop_first());
    }
}

/// Entries strictly above every key of a sorted list append in order.
pub proof fn lemma_insert_all_extend(s: Seq<(Seq<u8>, Seq<u8>)>, es: Seq<(Seq<u8>, Seq<u8>)>)
    requires
        sorted_entries(s),
        sorted_entries(es),
        forall|i: int, j: int|
            0 <= i < s.len() && 0 <= j < es.len() ==> bytes_lt(
                (#[trigger] s[i]).0,
                (#[trigger] es[j]).0,
            ),
    ensures
        insert_all(s, es) == s + es,
    decreases es.len(),
{
    if es.len() == 0 {
        assert(s + es =~= s);
    } else {
        let e0 = es[0];
        lemma_insert_sorted_split(s, e0.0, e0.1, s.len() as int);
        assert(insert_sorted(s, e0.0, e0.1) =~= s.push(e0)) by {
            assert(s.subrange(0, s.len() as int) =~= s);
            assert(s.skip(s.len() as int) =~= Seq::<(Seq<u8>, Seq<u8>)>::empty());
            assert((e0.0, e0.1) == e0);
        }
        let s2 = s.push(e0);
        assert(sorted_entries(s2)) by {
            assert(forall|i: int, j: int|
                0 <= i < j < s2.len() && j < s.len() ==> bytes_lt(
                    (#[trigger] s2[i]).0,
                    (#[trigger] s2[j]).0,
                ));
            assert(forall|i: int|
                0 <= i < s.len() ==> (#[trigger] s2[i]).0 == s[i].0 && bytes_lt(
                    s[i].0,
                    e0.0,
                ));
        }
        let es2 = es.drop_first();
        assert(sorted_entries(es2)) by {
            assert(forall|a: int, b: int|
                0 <= a < b < es2.len() ==> (#[trigger] es2[a]).0 == es[a + 1].0 && (
                #[trigger] es2[b]).0 == es[b + 1].0);
        }
        assert(forall|i: int, j: int|
            0 <= i < s2.len() && 0 <= j < es2.len() ==> bytes_lt(
                (#[trigger] s2[i]).0,
                (#[trigger] es2[j]).0,
            )) by {
            assert(forall|j: int| 0 <= j < es2.len() ==> (#[trigger] es2[j]).0 == es[j + 1].0);
            assert(forall|j: int| 0 <= j < es2.len() ==> bytes_lt(e0.0, (#[trigger] es[j + 1]).0));
        }
        lemma_insert_all_extend(s2, es2);
        assert(insert_all(s, es) == insert_all(s2, es2));
        assert(s2 + es2 =~= s + es);
    }
}

/// Rebinding the entries of a sorted list, in order, into an empty
/// manifest gives that list back: loading what was saved restores the
/// manifest exactly.
pub proof fn lemma_insert_all_identity(es: Seq<(Seq<u8>, Seq<u8>)>)
    requires
        sorted_entries(es),
    ensures
        insert_all(Seq::<(Seq<u8>, Seq<u8>)>::empty(), es) == es,
{
    lemma_insert_all_extend(Seq::<(Seq<u8>, Seq<u8>)>::empty(), es);
    assert(Seq::<(Seq<u8>, Seq<u8>)>::empty() + es =~= es);
}

/// A sorted entry list built by binding each entry of `list`, in order,
/// into an empty list.
fn entries_into_sorted(list: Vec<ManifestEntry>) -> (r: Vec<ManifestEntry>)
    ensures
        sorted_entries(entry_views(r@)),
        entry_views(r@) == insert_all(Seq::<(Seq<u8>, Seq<u8>)>::empty(), entry_views(list@)),
{
    let ghost all = entry_views(list@);
    let mut out: Vec<ManifestEntry> = Vec::new();
    let mut rest = list;
    let ghost mut done = Seq::<(Seq<u8>, Seq<u8>)>::empty();
    proof {
        assert(entry_views(out@) =~= Seq::<(Seq<u8>, Seq<u8>)>::empty());
        assert(entry_views(out@) == insert_all(Seq::<(Seq<u8>, Seq<u8>)>::empty(), done));
        assert(done + entry_views(rest@) =~= all);
    }
    while rest.len() > 0
        invariant
            sorted_entries(entry_views(out@)),
            entry_views(out@) == insert_all(Seq::<(Seq<u8>, Seq<u8>)>::empty(), done),
            done + entry_views(rest@) == all,
        decreases rest@.len(),
    {
        let ghost rest_before = entry_views(rest@);
        let e = rest.remove(0);
        let ghost ev = e@;
        proof {
            assert(rest_before[0] == ev);
            assert(entry_views(rest@) =~= rest_before.drop_first());
            lemma_insert_all_push(Seq::<(Seq<u8>, Seq<u8>)>::empty(), done, ev);
            lemma_insert_sorted_props(entry_views(out@), ev.0, ev.1);
            assert((ev.0, ev.1) == ev);
        }
        insert_entry(&mut out, e);
        proof {
            done = done.push(ev);
            assert(done + entry_views(rest@) =~= all);
        }
    }
    proof {
        assert(entry_views(rest@).len() == 0);
        assert(done =~= all);
    }
    out
}

impl ConfigManager {
    /// Loads the manifest from the bytes of the manifest file, or starts
    /// empty where there is no file or its content does not parse: a
    /// missing or corrupt manifest is never a hard failure.
    pub fn open(bytes: Option<&Vec<u8>>) -> (r: ConfigManager)
        ensures
            r.wf(),
            bytes is None ==> r.files_seq() == Seq::<(Seq<u8>, Seq<u8>)>::empty()
                && r.dirs_seq() == Seq::<(Seq<u8>, Seq<u8>)>::empty(),
            bytes matches Some(b) ==> match crate::codec::spec_parse_doc(b@) {
                Some(df) => r.dirs_seq() == insert_all(
                    Seq::<(Seq<u8>, Seq<u8>)>::empty(),
                    df.0,
                ) && r.files_seq() == insert_all(Seq::<(Seq<u8>, Seq<u8>)>::empty(), df.1),
                None => r.files_seq() == Seq::<(Seq<u8>, Seq<u8>)>::empty() && r.dirs_seq()
                    == Seq::<(Seq<u8>, Seq<u8>)>::empty(),
            },
    {
        match bytes {
            None => ConfigManager::new(),
            Some(b) => match crate::codec::parse_doc(b) {
                None => ConfigManager::new(),
                Some((dirs_list, files_list)) => {
                    let dirs = entries_into_sorted(dirs_list);
                    let files = entries_into_sorted(files_list);
                    ConfigManager { config_data: ConfigData { files, dirs } }
                },
            },
        }
    }

    /// The bytes of the manifest file for the current state: the
    /// directory section, then the file section, entries in key order.
    pub fn to_bytes(&self) -> (r: Vec<u8>)
        ensures
            r@ == crate::codec::doc_of(self.dirs_seq(), self.files_seq()),
    {
        crate::codec::doc_to_bytes(&self.config_data.dirs, &self.config_data.files)
    }
}

} // verus!
