//! Path mapping between a source location on the filesystem and its
//! canonical location inside the managed repository.
//!
//! Paths are held as byte strings (`Vec<u8>`), separated by `/`. A path is
//! modelled as its sequence of components: the maximal runs of non-separator
//! bytes, with empty runs and `.` runs dropped.

use vstd::prelude::*;

verus! {

/// Path separator byte, `/`.
pub const SEP: u8 = 47;

/// Leading byte of a hidden file name, `.`.
pub const DOT: u8 = 46;

/// The home sentinel byte, `~`.
pub const TILDE: u8 = 126;

/// The pieces of `s` cut at every separator byte, empty pieces kept.
/// A byte string always has at least one piece; `n` separators give
/// `n + 1` pieces.
pub open spec fn raw_split(s: Seq<u8>) -> Seq<Seq<u8>>
    decreases s.len(),
{
    if s.len() == 0 {
        seq![Seq::<u8>::empty()]
    } else if s[0] == SEP {
        seq![Seq::<u8>::empty()] + raw_split(s.drop_first())
    } else {
        let rest = raw_split(s.drop_first());
        seq![seq![s[0]] + rest[0]] + rest.drop_first()
    }
}

/// A well-formed path component: non-empty, holds no separator, and is not
/// the no-op component `.`.
pub open spec fn is_comp(c: Seq<u8>) -> bool {
    &&& c.len() > 0
    &&& (forall|i: int| 0 <= i < c.len() ==> c[i] != SEP)
    &&& c != seq![DOT]
}

/// The components of the byte path `s`: its separator-cut pieces with empty
/// and `.` pieces dropped.
pub open spec fn is_comp_pred() -> spec_fn(Seq<u8>) -> bool {
    |c: Seq<u8>| is_comp(c)
}

pub open spec fn components(s: Seq<u8>) -> Seq<Seq<u8>> {
    raw_split(s).filter(is_comp_pred())
}

/// Whether the byte path `s` is absolute (starts with a separator).
pub open spec fn is_abs(s: Seq<u8>) -> bool {
    s.len() > 0 && s[0] == SEP
}

pub proof fn lemma_raw_split_len(s: Seq<u8>)
    ensures
        raw_split(s).len() >= 1,
    decreases s.len(),
{
    if s.len() != 0 {
        lemma_raw_split_len(s.drop_first());
    }
}

/// How one more byte extends the separator-cut pieces: a separator opens a
/// new empty piece, any other byte extends the last piece.
#[verifier::spinoff_prover]
pub proof fn lemma_raw_split_push(s: Seq<u8>, b: u8)
    ensures
        b == SEP ==> raw_split(s.push(b)) =~~= raw_split(s) + seq![Seq::<u8>::empty()],
        b != SEP ==> raw_split(s.push(b)) =~~= raw_split(s).drop_last() + seq![
            raw_split(s).last().push(b),
        ],
    decreases s.len(),
{
    lemma_raw_split_len(s);
    let t = s.push(b);
    if s.len() == 0 {
        assert(t[0] == b);
        assert(t.drop_first() =~= Seq::<u8>::empty());
        assert(raw_split(s) =~= seq![Seq::<u8>::empty()]);
        if b != SEP {
            assert(raw_split(t) =~~= seq![seq![b]]);
            assert(raw_split(s).drop_last() + seq![raw_split(s).last().push(b)] =~~= seq![
                seq![b],
            ]);
        }
    } else {
        lemma_raw_split_len(s.drop_first());
        assert(t[0] == s[0]);
        assert(t.drop_first() =~= s.drop_first().push(b));
        lemma_raw_split_push(s.drop_first(), b);
        let r = raw_split(s.drop_first());
        if s[0] == SEP {
            assert(raw_split(s) =~~= seq![Seq::<u8>::empty()] + r);
            assert(raw_split(t) =~~= seq![Seq::<u8>::empty()] + raw_split(t.drop_first()));
        } else {
            assert(raw_split(s) =~~= seq![seq![s[0]] + r[0]] + r.drop_first());
            let rt = raw_split(t.drop_first());
            assert(raw_split(t) =~~= seq![seq![s[0]] + rt[0]] + rt.drop_first());
            if b != SEP {
                if r.len() == 1 {
                    assert(rt =~~= seq![r[0].push(b)]);
                    assert(seq![s[0]] + r[0].push(b) =~= (seq![s[0]] + r[0]).push(b));
                } else {
                    assert(rt[0] == r[0]);
                    assert(raw_split(s).last() == r.last());
                }
            }
        }
    }
}

/// Every piece of a separator-free byte string is the string itself.
pub proof fn lemma_raw_split_whole(s: Seq<u8>)
    requires
        forall|i: int| 0 <= i < s.len() ==> s[i] != SEP,
    ensures
        raw_split(s) =~~= seq![s],
    decreases s.len(),
{
    if s.len() != 0 {
        lemma_raw_split_whole(s.drop_first());
        assert(seq![s[0]] + s.drop_first() =~= s);
    }
}

/// How the pieces of a concatenation arise from the pieces of its halves:
/// the last piece of the left half fuses with the first piece of the right.
pub proof fn lemma_raw_split_concat(s1: Seq<u8>, s2: Seq<u8>)
    ensures
        raw_split(s1 + s2) =~~= raw_split(s1).drop_last() + seq![
            raw_split(s1).last() + raw_split(s2).first(),
        ] + raw_split(s2).drop_first(),
    decreases s1.len(),
{
    lemma_raw_split_len(s1);
    lemma_raw_split_len(s2);
    if s1.len() == 0 {
        assert(s1 + s2 =~= s2);
        assert(raw_split(s1).last() + raw_split(s2).first() =~= raw_split(s2).first());
        assert(seq![raw_split(s2).first()] + raw_split(s2).drop_first() =~= raw_split(s2));
    } else {
        assert((s1 + s2)[0] == s1[0]);
        assert((s1 + s2).drop_first() =~= s1.drop_first() + s2);
        lemma_raw_split_concat(s1.drop_first(), s2);
        lemma_raw_split_len(s1.drop_first());
        let r1 = raw_split(s1.drop_first());
        if s1[0] == SEP {
            assert(raw_split(s1) =~~= seq![Seq::<u8>::empty()] + r1);
        } else {
            assert(raw_split(s1) =~~= seq![seq![s1[0]] + r1[0]] + r1.drop_first());
            if r1.len() == 1 {
                assert(raw_split(s1).last() == seq![s1[0]] + r1[0]);
                assert(seq![s1[0]] + (r1[0] + raw_split(s2).first()) =~= (seq![s1[0]] + r1[0])
                    + raw_split(s2).first());
            } else {
                let rt = raw_split(s1.drop_first() + s2);
                assert(rt[0] == r1[0]);
                assert(rt.drop_first() =~~= r1.drop_last().drop_first() + seq![
                    r1.last() + raw_split(s2).first(),
                ] + raw_split(s2).drop_first());
                assert(raw_split(s1).last() == r1.last());
                assert(raw_split(s1).drop_last() =~~= seq![seq![s1[0]] + r1[0]]
                    + r1.drop_first().drop_last());
                assert(r1.drop_first().drop_last() =~~= r1.drop_last().drop_first());
            }
        }
    }
}

/// A lone separator splits into two empty pieces.
proof fn lemma_raw_split_sep()
    ensures
        raw_split(seq![SEP]) =~~= seq![Seq::<u8>::empty(), Seq::<u8>::empty()],
{
    assert(seq![SEP].drop_first() =~= Seq::<u8>::empty());
    assert(raw_split(Seq::<u8>::empty()) =~= seq![Seq::<u8>::empty()]);
    assert(seq![SEP][0] == SEP);
}

/// Filtering a one-element sequence keeps or drops that element.
proof fn lemma_filter_singleton(x: Seq<u8>, pred: spec_fn(Seq<u8>) -> bool)
    ensures
        seq![x].filter(pred) == if pred(x) {
            seq![x]
        } else {
            Seq::<Seq<u8>>::empty()
        },
{
    reveal(Seq::filter);
    assert(seq![x].drop_last() =~= Seq::<Seq<u8>>::empty());
    assert(Seq::<Seq<u8>>::empty().filter(pred) =~= Seq::<Seq<u8>>::empty());
    assert(seq![x].last() == x);
}

/// Filtering after a push appends the new element exactly when it passes.
proof fn lemma_filter_push(s: Seq<Seq<u8>>, x: Seq<u8>, pred: spec_fn(Seq<u8>) -> bool)
    ensures
        s.push(x).filter(pred) == if pred(x) {
            s.filter(pred).push(x)
        } else {
            s.filter(pred)
        },
{
    reveal(Seq::filter);
    assert(s.push(x).drop_last() =~= s);
}

/// The flat byte path of a component sequence, separator-joined; an absolute
/// path carries one leading separator.
pub open spec fn join_rel(cs: Seq<Seq<u8>>) -> Seq<u8>
    decreases cs.len(),
{
    if cs.len() == 0 {
        Seq::<u8>::empty()
    } else if cs.len() == 1 {
        cs[0]
    } else {
        cs[0] + seq![SEP] + join_rel(cs.drop_first())
    }
}

/// See [`join_rel`]; `abs` prepends the leading separator.
pub open spec fn join_path(abs: bool, cs: Seq<Seq<u8>>) -> Seq<u8> {
    if abs {
        seq![SEP] + join_rel(cs)
    } else {
        join_rel(cs)
    }
}

/// Joining one more component appends a separator and the component.
pub proof fn lemma_join_rel_push(cs: Seq<Seq<u8>>, c: Seq<u8>)
    ensures
        join_rel(cs.push(c)) =~= if cs.len() == 0 {
            c
        } else {
            join_rel(cs) + seq![SEP] + c
        },
    decreases cs.len(),
{
    if cs.len() > 0 {
        assert(cs.push(c)[0] == cs[0]);
        assert(cs.push(c).drop_first() =~= cs.drop_first().push(c));
        lemma_join_rel_push(cs.drop_first(), c);
    }
}

/// Splitting a joined component sequence gives the components back: the
/// component view of a byte path is a left inverse of [`join_path`].
pub proof fn lemma_components_join(abs: bool, cs: Seq<Seq<u8>>)
    requires
        forall|i: int| 0 <= i < cs.len() ==> is_comp(#[trigger] cs[i]),
    ensures
        components(join_path(abs, cs)) == cs,
        is_abs(join_path(abs, cs)) == abs,
    decreases cs.len(),
{
    let pred = is_comp_pred();
    assert(forall|c: Seq<u8>| #[trigger] pred(c) == is_comp(c));
    broadcast use vstd::seq_lib::group_seq_properties;

    if cs.len() == 0 {
        lemma_filter_singleton(Seq::<u8>::empty(), pred);
        if abs {
            assert(join_path(true, cs) =~= seq![SEP]);
            lemma_raw_split_sep();
            assert(raw_split(seq![SEP]).filter(pred) =~= Seq::<Seq<u8>>::empty()) by {
                reveal(Seq::filter);
                assert(raw_split(seq![SEP]).drop_last() =~= seq![Seq::<u8>::empty()]);
            }
        }
    } else if cs.len() == 1 {
        lemma_raw_split_whole(cs[0]);
        lemma_filter_singleton(cs[0], pred);
        assert(components(join_rel(cs)) == seq![cs[0]]);
        assert(seq![cs[0]] =~= cs);
        if abs {
            lemma_raw_split_concat(seq![SEP], cs[0]);
            lemma_raw_split_sep();
            assert(raw_split(seq![SEP] + cs[0]) =~~= seq![Seq::<u8>::empty(), cs[0]]);
            assert(seq![Seq::<u8>::empty(), cs[0]] =~= seq![Seq::<u8>::empty()] + seq![cs[0]]);
            Seq::filter_distributes_over_add(seq![Seq::<u8>::empty()], seq![cs[0]], pred);
            lemma_filter_singleton(Seq::<u8>::empty(), pred);
            assert(is_abs(join_path(true, cs)));
        } else {
            assert(join_path(false, cs) == cs[0]);
            assert(!is_abs(cs[0]));
        }
    } else {
        let rest = cs.drop_first();
        lemma_components_join(false, rest);
        lemma_raw_split_whole(cs[0]);
        lemma_raw_split_len(join_rel(rest));
        // join_rel(cs) splits as cs[0], then the pieces of the rest
        assert(join_rel(cs) == cs[0] + (seq![SEP] + join_rel(rest))) by {
            assert(cs[0] + seq![SEP] + join_rel(rest) =~= cs[0] + (seq![SEP] + join_rel(rest)));
        }
        lemma_raw_split_concat(cs[0], seq![SEP] + join_rel(rest));
        lemma_raw_split_concat(seq![SEP], join_rel(rest));
        lemma_raw_split_sep();
        assert(raw_split(seq![SEP] + join_rel(rest)) =~~= seq![Seq::<u8>::empty()] + raw_split(
            join_rel(rest),
        ));
        assert(raw_split(join_rel(cs)) =~~= seq![cs[0]] + raw_split(join_rel(rest)));
        Seq::filter_distributes_over_add(seq![cs[0]], raw_split(join_rel(rest)), pred);
        lemma_filter_singleton(cs[0], pred);
        assert(components(join_rel(cs)) =~= seq![cs[0]] + rest);
        assert(seq![cs[0]] + rest =~= cs);
        if abs {
            lemma_raw_split_concat(seq![SEP], join_rel(cs));
            lemma_raw_split_sep();
            assert(raw_split(seq![SEP] + join_rel(cs)) =~~= seq![Seq::<u8>::empty()] + raw_split(
                join_rel(cs),
            ));
            Seq::filter_distributes_over_add(
                seq![Seq::<u8>::empty()],
                raw_split(join_rel(cs)),
                pred,
            );
            lemma_filter_singleton(Seq::<u8>::empty(), pred);
            assert(is_abs(join_path(true, cs)));
        } else {
            assert(join_rel(cs)[0] == cs[0][0]);
        }
    }
}

/// The canonical byte form of a path: its components joined back together.
/// Canonicalisation collapses repeated separators and drops `.` components;
/// it never touches the filesystem.
pub open spec fn canon(s: Seq<u8>) -> Seq<u8> {
    join_path(is_abs(s), components(s))
}

/// Whether `p` lies at or under `prefix`: same absoluteness and the
/// components of `prefix` lead those of `p`.
pub open spec fn path_in(prefix: Seq<u8>, p: Seq<u8>) -> bool {
    is_abs(p) == is_abs(prefix) && components(prefix).is_prefix_of(components(p))
}

/// The home sentinel as a lone component, `~`.
pub open spec fn tilde_comp() -> Seq<u8> {
    seq![TILDE]
}

/// The parent component `..`, which has no place in the mirror.
pub open spec fn parent_comp() -> Seq<u8> {
    seq![DOT, DOT]
}

/// The fixed folder name that the home sentinel maps to, `home`.
pub open spec fn home_map_name() -> Seq<u8> {
    seq![104u8, 111u8, 109u8, 101u8]
}

/// The mirror subdirectory under the managed root, `dotfiles`.
pub open spec fn files_dir_name() -> Seq<u8> {
    seq![100u8, 111u8, 116u8, 102u8, 105u8, 108u8, 101u8, 115u8]
}

/// An owned copy of a byte string.
pub(crate) fn copy_bytes(v: &Vec<u8>) -> (r: Vec<u8>)
    ensures
        r@ == v@,
{
    let mut r: Vec<u8> = Vec::new();
    let mut j: usize = 0;
    while j < v.len()
        invariant
            j <= v.len(),
            r@ =~= v@.subrange(0, j as int),
        decreases v.len() - j,
    {
        r.push(v[j]);
        proof {
            assert(r@ =~= v@.subrange(0, j + 1));
        }
        j += 1;
    }
    proof {
        assert(r@ =~= v@);
    }
    r
}

/// A byte string without its first byte.
pub(crate) fn tail_bytes(v: &Vec<u8>) -> (r: Vec<u8>)
    requires
        v@.len() >= 1,
    ensures
        r@ == v@.drop_first(),
{
    let mut r: Vec<u8> = Vec::new();
    let mut j: usize = 1;
    while j < v.len()
        invariant
            1 <= j <= v.len(),
            r@ =~= v@.subrange(1, j as int),
        decreases v.len() - j,
    {
        r.push(v[j]);
        proof {
            assert(r@ =~= v@.subrange(1, j + 1));
        }
        j += 1;
    }
    proof {
        assert(r@ =~= v@.drop_first());
    }
    r
}

/// Whether a separator-free byte string is kept as a path component.
fn comp_keep(c: &Vec<u8>) -> (r: bool)
    requires
        forall|k: int| 0 <= k < c@.len() ==> c@[k] != SEP,
    ensures
        r == is_comp(c@),
{
    if c.len() == 0 {
        false
    } else if c.len() == 1 && c[0] == DOT {
        proof {
            assert(c@ =~= seq![DOT]);
        }
        false
    } else {
        proof {
            if c@.len() == 1 {
                assert(c@[0] != DOT);
                assert(c@ != seq![DOT]);
            } else {
                assert(c@.len() != seq![DOT].len());
            }
        }
        true
    }
}

/// The components of the byte path `p`, in order.
pub(crate) fn split_path(p: &Vec<u8>) -> (r: Vec<Vec<u8>>)
    ensures
        r.deep_view() == components(p@),
        forall|i: int| 0 <= i < r.deep_view().len() ==> is_comp(#[trigger] r.deep_view()[i]),
{
    let mut done: Vec<Vec<u8>> = Vec::new();
    let mut cur: Vec<u8> = Vec::new();
    let ghost mut closed: Seq<Seq<u8>> = Seq::empty();
    let mut i: usize = 0;
    proof {
        assert(p@.subrange(0, 0) =~= Seq::<u8>::empty());
        assert(raw_split(p@.subrange(0, 0)) =~= closed + seq![cur@]);
        assert(done.deep_view() =~= closed.filter(is_comp_pred()));
    }
    while i < p.len()
        invariant
            i <= p.len(),
            raw_split(p@.subrange(0, i as int)) == closed + seq![cur@],
            done.deep_view() == closed.filter(is_comp_pred()),
            forall|k: int| 0 <= k < cur@.len() ==> cur@[k] != SEP,
        decreases p.len() - i,
    {
        let b = p[i];
        proof {
            assert(p@.subrange(0, i + 1) =~= p@.subrange(0, i as int).push(p@[i as int]));
            lemma_raw_split_push(p@.subrange(0, i as int), b);
        }
        if b == SEP {
            let keep = comp_keep(&cur);
            let ghost cv = cur@;
            let ghost old_done = done.deep_view();
            if keep {
                done.push(cur);
                proof {
                    assert(done.deep_view() =~~= old_done.push(cv));
                }
            }
            cur = Vec::new();
            proof {
                lemma_filter_push(closed, cv, is_comp_pred());
                assert(raw_split(p@.subrange(0, i + 1)) =~~= raw_split(p@.subrange(0, i as int))
                    + seq![Seq::<u8>::empty()]);
                assert(raw_split(p@.subrange(0, i as int)) == closed + seq![cv]);
                let closed2 = closed.push(cv);
                assert((closed + seq![cv]) + seq![Seq::<u8>::empty()] =~= closed2 + seq![
                    Seq::<u8>::empty(),
                ]);
                assert(cur@ =~= Seq::<u8>::empty());
                assert(closed2 + seq![cur@] =~= closed2 + seq![Seq::<u8>::empty()]);
                closed = closed2;
                assert(raw_split(p@.subrange(0, i + 1)) =~= closed + seq![cur@]);
                assert(is_comp_pred()(cv) == keep);
                if keep {
                    assert(done.deep_view() == old_done.push(cv));
                    assert(closed2.filter(is_comp_pred()) == old_done.push(cv));
                }
                assert(done.deep_view() =~= closed.filter(is_comp_pred()));
            }
        } else {
            let ghost cv = cur@;
            cur.push(b);
            proof {
                assert((closed + seq![cv]).drop_last() =~= closed);
                assert((closed + seq![cv]).last() == cv);
                assert(raw_split(p@.subrange(0, i + 1)) =~= closed + seq![cur@]);
            }
        }
        i += 1;
    }
    proof {
        assert(p@.subrange(0, p@.len() as int) =~= p@);
    }
    let keep = comp_keep(&cur);
    let ghost cv = cur@;
    let ghost old_done = done.deep_view();
    if keep {
        done.push(cur);
        proof {
            assert(done.deep_view() =~~= old_done.push(cv));
        }
    }
    proof {
        Seq::filter_distributes_over_add(closed, seq![cv], is_comp_pred());
        lemma_filter_singleton(cv, is_comp_pred());
        assert(raw_split(p@) == closed + seq![cv]);
        assert(done.deep_view() =~= components(p@));
        broadcast use Seq::lemma_filter_pred;

    }
    done
}

/// The flat byte path of a component vector; see [`join_path`].
pub(crate) fn join_comps(abs: bool, cs: &Vec<Vec<u8>>) -> (r: Vec<u8>)
    ensures
        r@ == join_path(abs, cs.deep_view()),
{
    let mut out: Vec<u8> = Vec::new();
    if abs {
        out.push(SEP);
    }
    proof {
        assert(cs.deep_view().subrange(0, 0) =~= Seq::<Seq<u8>>::empty());
        assert(out@ =~= join_path(abs, cs.deep_view().subrange(0, 0)));
    }
    let mut i: usize = 0;
    while i < cs.len()
        invariant
            i <= cs.len(),
            cs.deep_view().len() == cs@.len(),
            out@ == join_path(abs, cs.deep_view().subrange(0, i as int)),
        decreases cs.len() - i,
    {
        let ghost prefix = cs.deep_view().subrange(0, i as int);
        proof {
            assert(cs.deep_view().subrange(0, i + 1) =~= prefix.push(cs.deep_view()[i as int]));
            lemma_join_rel_push(prefix, cs.deep_view()[i as int]);
        }
        if i > 0 {
            out.push(SEP);
        }
        let comp = &cs[i];
        proof {
            assert(comp@ =~= cs.deep_view()[i as int]);
        }
        let ghost mid = out@;
        let mut j: usize = 0;
        while j < comp.len()
            invariant
                j <= comp.len(),
                out@ =~= mid + comp@.subrange(0, j as int),
            decreases comp.len() - j,
        {
            out.push(comp[j]);
            proof {
                assert(out@ =~= mid + comp@.subrange(0, j + 1));
            }
            j += 1;
        }
        proof {
            assert(out@ =~= mid + comp@);
            assert(out@ =~= join_path(abs, cs.deep_view().subrange(0, i + 1)));
        }
        i += 1;
    }
    proof {
        assert(cs.deep_view().subrange(0, cs.deep_view().len() as int) =~= cs.deep_view());
    }
    out
}

/// The source form stored in the manifest: a path under the home directory
/// is rewritten to start with the home sentinel; any other path keeps its
/// own components.
pub open spec fn spec_src_comps(home: Seq<u8>, p: Seq<u8>) -> Seq<Seq<u8>> {
    if path_in(home, p) {
        seq![tilde_comp()] + components(p).skip(components(home).len() as int)
    } else {
        components(p)
    }
}

/// Whether the stored source form of `p` is an absolute path.
pub open spec fn spec_src_abs(home: Seq<u8>, p: Seq<u8>) -> bool {
    !path_in(home, p) && is_abs(p)
}

/// The manifest key for `p`: home-relative paths start with the sentinel,
/// all others stay absolute.
pub open spec fn spec_src_path(home: Seq<u8>, p: Seq<u8>) -> Seq<u8> {
    join_path(spec_src_abs(home, p), spec_src_comps(home, p))
}

/// One source component as it appears in the mirror: the home sentinel
/// becomes the fixed home folder, a hidden name loses its leading dot.
pub open spec fn repo_comp(c: Seq<u8>) -> Seq<u8> {
    if c == tilde_comp() {
        home_map_name()
    } else if c.len() > 0 && c[0] == DOT {
        c.drop_first()
    } else {
        c
    }
}

/// Parent components have no mirror location and are dropped.
pub open spec fn keep_comp_pred() -> spec_fn(Seq<u8>) -> bool {
    |c: Seq<u8>| c != parent_comp()
}

pub open spec fn repo_comp_fn() -> spec_fn(Seq<u8>) -> Seq<u8> {
    |c: Seq<u8>| repo_comp(c)
}

/// The mirror components of a stored source form.
pub open spec fn repo_comps(cs: Seq<Seq<u8>>) -> Seq<Seq<u8>> {
    cs.filter(keep_comp_pred()).map_values(repo_comp_fn())
}

/// The mirror path of `p` relative to the mirror root.
pub open spec fn spec_config_repo_path(home: Seq<u8>, p: Seq<u8>) -> Seq<u8> {
    join_path(false, repo_comps(spec_src_comps(home, p)))
}

/// The path handed to the stage operation: the mirror path under the
/// mirror subdirectory name.
pub open spec fn spec_repo_path_of(rc: Seq<Seq<u8>>) -> Seq<u8> {
    join_path(false, seq![files_dir_name()] + rc)
}

/// The absolute filesystem location of a mirror path.
pub open spec fn spec_full_repo_of(files_dir: Seq<u8>, rc: Seq<Seq<u8>>) -> Seq<u8> {
    join_path(is_abs(files_dir), components(files_dir) + rc)
}

/// The parent of a mirrored directory's location; the mirror root's parent
/// is the managed root itself.
pub open spec fn spec_parent_repo_of(root_dir: Seq<u8>, files_dir: Seq<u8>, rc: Seq<Seq<u8>>) -> Seq<
    u8,
> {
    if rc.len() == 0 {
        root_dir
    } else {
        join_path(is_abs(files_dir), components(files_dir) + rc.drop_last())
    }
}

/// The absolute source location recovered from a stored source form:
/// a sentinel-led form is grafted back onto the home directory.
pub open spec fn src_is_home_form(src: Seq<u8>) -> bool {
    !is_abs(src) && components(src).len() > 0 && components(src)[0] == tilde_comp()
}

pub open spec fn spec_full_src(home: Seq<u8>, src: Seq<u8>) -> Seq<u8> {
    if src_is_home_form(src) {
        join_path(is_abs(home), components(home) + components(src).drop_first())
    } else {
        src
    }
}

/// Every component of a byte path is well formed.
pub proof fn lemma_components_valid(s: Seq<u8>)
    ensures
        forall|i: int| 0 <= i < components(s).len() ==> is_comp(#[trigger] components(s)[i]),
{
    broadcast use Seq::lemma_filter_pred;

    assert forall|i: int| 0 <= i < components(s).len() implies is_comp(
        #[trigger] components(s)[i],
    ) by {
        assert(is_comp_pred()(components(s)[i]));
    }
}

/// Mapping a well-formed component into the mirror keeps it well formed.
pub proof fn lemma_repo_comp_valid(c: Seq<u8>)
    requires
        is_comp(c),
        c != parent_comp(),
    ensures
        is_comp(repo_comp(c)),
{
    if c == tilde_comp() {
    } else if c.len() > 0 && c[0] == DOT {
        assert(c.len() != 1) by {
            if c.len() == 1 {
                assert(c =~= seq![DOT]);
            }
        }
        assert(repo_comp(c).len() > 0);
        assert(repo_comp(c) != seq![DOT]) by {
            if c.drop_first() == seq![DOT] {
                assert(c.drop_first().len() == 1);
                assert(c.len() == 2);
                assert(c[1] == c.drop_first()[0]);
                assert(c[1] == DOT);
                assert(parent_comp().len() == 2 && parent_comp()[0] == DOT && parent_comp()[1]
                    == DOT);
                assert(c =~= parent_comp());
            }
        }
    }
}

/// Every mirror component of a well-formed component sequence is well
/// formed.
pub proof fn lemma_repo_comps_valid(cs: Seq<Seq<u8>>)
    requires
        forall|i: int| 0 <= i < cs.len() ==> is_comp(#[trigger] cs[i]),
    ensures
        forall|i: int| 0 <= i < repo_comps(cs).len() ==> is_comp(#[trigger] repo_comps(cs)[i]),
{
    broadcast use Seq::lemma_filter_pred;
    broadcast use Seq::lemma_filter_contains;

    let kept = cs.filter(keep_comp_pred());
    assert forall|i: int| 0 <= i < repo_comps(cs).len() implies is_comp(
        #[trigger] repo_comps(cs)[i],
    ) by {
        assert(repo_comps(cs)[i] == repo_comp_fn()(kept[i]));
        assert(keep_comp_pred()(kept[i]));
        assert(is_comp(kept[i])) by {
            assert(kept.contains(kept[i]));
            let j = choose|j: int| 0 <= j < cs.len() && cs[j] == kept[i];
            assert(cs.contains(kept[i])) by {
                lemma_filter_elem_of(cs, keep_comp_pred(), i);
            }
            let k = choose|k: int| 0 <= k < cs.len() && cs[k] == kept[i];
            assert(is_comp(cs[k]));
        }
        lemma_repo_comp_valid(kept[i]);
    }
}

/// An element of a filtered sequence is an element of the sequence it
/// was filtered from.
proof fn lemma_filter_elem_of(s: Seq<Seq<u8>>, pred: spec_fn(Seq<u8>) -> bool, i: int)
    requires
        0 <= i < s.filter(pred).len(),
    ensures
        s.contains(s.filter(pred)[i]),
    decreases s.len(),
{
    reveal(Seq::filter);
    if s.len() > 0 {
        let sub = s.drop_last().filter(pred);
        if i < sub.len() {
            lemma_filter_elem_of(s.drop_last(), pred, i);
            let j = choose|j: int| 0 <= j < s.drop_last().len() && s.drop_last()[j] == sub[i];
            assert(s[j] == s.filter(pred)[i]);
        } else {
            assert(s[s.len() - 1] == s.filter(pred)[i]);
        }
    }
}

/// Canonicalising twice is the same as canonicalising once.
pub proof fn lemma_canon_idem(s: Seq<u8>)
    ensures
        canon(canon(s)) == canon(s),
        components(canon(s)) == components(s),
        is_abs(canon(s)) == is_abs(s),
{
    lemma_components_valid(s);
    lemma_components_join(is_abs(s), components(s));
}

/// Whether `p` is an absolute byte path.
pub(crate) fn path_is_abs(p: &Vec<u8>) -> (r: bool)
    ensures
        r == is_abs(p@),
{
    p.len() > 0 && p[0] == SEP
}

/// The fixed home folder name, `home`, as an owned component.
pub(crate) fn home_map_name_vec() -> (r: Vec<u8>)
    ensures
        r@ == home_map_name(),
{
    let mut v: Vec<u8> = Vec::new();
    v.push(104);
    v.push(111);
    v.push(109);
    v.push(101);
    proof {
        assert(v@ =~= home_map_name());
    }
    v
}

/// The mirror subdirectory name, `dotfiles`, as an owned component.
pub(crate) fn files_dir_name_vec() -> (r: Vec<u8>)
    ensures
        r@ == files_dir_name(),
{
    let mut v: Vec<u8> = Vec::new();
    v.push(100);
    v.push(111);
    v.push(116);
    v.push(102);
    v.push(105);
    v.push(108);
    v.push(101);
    v.push(115);
    proof {
        assert(v@ =~= files_dir_name());
    }
    v
}

/// The home sentinel as an owned component.
pub(crate) fn tilde_comp_vec() -> (r: Vec<u8>)
    ensures
        r@ == tilde_comp(),
{
    let mut v: Vec<u8> = Vec::new();
    v.push(TILDE);
    proof {
        assert(v@ =~= tilde_comp());
    }
    v
}

/// Whether the components of `pre` lead the components of `cs`.
pub(crate) fn comps_prefix(pre: &Vec<Vec<u8>>, cs: &Vec<Vec<u8>>) -> (r: bool)
    ensures
        r == pre.deep_view().is_prefix_of(cs.deep_view()),
{
    if pre.len() > cs.len() {
        proof {
            assert(pre.deep_view().len() == pre@.len());
            assert(cs.deep_view().len() == cs@.len());
        }
        return false;
    }
    let mut i: usize = 0;
    while i < pre.len()
        invariant
            i <= pre.len() <= cs.len(),
            pre.deep_view().len() == pre@.len(),
            cs.deep_view().len() == cs@.len(),
            forall|j: int| 0 <= j < i ==> pre.deep_view()[j] == cs.deep_view()[j],
        decreases pre.len() - i,
    {
        let a = &pre[i];
        let b = &cs[i];
        if !(a == b) {
            proof {
                assert(a@ =~= pre.deep_view()[i as int]);
                assert(b@ =~= cs.deep_view()[i as int]);
                if a@ == b@ {
                    assert(a.len() == b.len() && forall|k: int|
                        0 <= k < a.len() ==> a@[k] == b@[k]);
                }
                assert(pre.deep_view()[i as int] != cs.deep_view()[i as int]);
                assert(!pre.deep_view().is_prefix_of(cs.deep_view()));
            }
            return false;
        }
        proof {
            assert(a@ =~= b@);
            assert(pre.deep_view()[i as int] =~= cs.deep_view()[i as int]);
        }
        i += 1;
    }
    proof {
        assert(pre.deep_view() =~= cs.deep_view().subrange(0, pre.deep_view().len() as int));
    }
    true
}

/// The fixed names are themselves well-formed components.
pub proof fn lemma_const_comps_valid()
    ensures
        is_comp(tilde_comp()),
        is_comp(home_map_name()),
        is_comp(files_dir_name()),
        tilde_comp() != parent_comp(),
{
    assert(tilde_comp()[0] == TILDE);
    assert(seq![DOT][0] == DOT);
    assert(tilde_comp() != seq![DOT]);
    assert(home_map_name()[0] == 104);
    assert(forall|i: int| 0 <= i < home_map_name().len() ==> home_map_name()[i] != SEP);
    assert(home_map_name() != seq![DOT]);
    assert(forall|i: int| 0 <= i < files_dir_name().len() ==> files_dir_name()[i] != SEP);
    assert(files_dir_name() != seq![DOT]);
    assert(parent_comp().len() == 2);
}

/// The process-wide path context: the user's home directory, the managed
/// root, and the mirror subdirectory of the root. Immutable once built.
#[derive(Debug, PartialEq, Eq)]
pub struct Paths {
    pub home_dir: Vec<u8>,
    pub root_dir: Vec<u8>,
    pub files_dir: Vec<u8>,
}

/// A tracked file's locations: on the real filesystem, in the manifest,
/// and in the mirror.
#[derive(Debug, PartialEq, Eq)]
pub struct FilePathInfo {
    pub full_src_path: Vec<u8>,
    pub src_path: Vec<u8>,
    pub full_repo_path: Vec<u8>,
    pub repo_path: Vec<u8>,
    pub config_repo_path: Vec<u8>,
}

/// A tracked directory's locations; also carries the parent of its mirror
/// location, which must exist before a recursive copy.
#[derive(Debug, PartialEq, Eq)]
pub struct DirPathInfo {
    pub full_src_path: Vec<u8>,
    pub src_path: Vec<u8>,
    pub repo_path: Vec<u8>,
    pub full_parent_repo_path: Vec<u8>,
    pub full_repo_path: Vec<u8>,
    pub config_repo_path: Vec<u8>,
}

impl Paths {
    /// The context is well formed when its directories are canonical byte
    /// paths and the mirror directory sits under the root.
    pub open spec fn wf(&self) -> bool {
        &&& self.home_dir@ == canon(self.home_dir@)
        &&& self.root_dir@ == canon(self.root_dir@)
        &&& self.files_dir@ == join_path(
            is_abs(self.root_dir@),
            components(self.root_dir@).push(files_dir_name()),
        )
    }

    /// Builds the context for a managed root and an explicit home
    /// directory. Both are canonicalised; the mirror directory is the
    /// fixed subdirectory of the root.
    pub fn new_with_home_dir(root: &Vec<u8>, home: &Vec<u8>) -> (r: Paths)
        ensures
            r.wf(),
            r.root_dir@ == canon(root@),
            r.home_dir@ == canon(home@),
            r.files_dir@ == join_path(
                is_abs(root@),
                components(root@).push(files_dir_name()),
            ),
    {
        let root_comps = split_path(root);
        let root_abs = path_is_abs(root);
        let root_dir = join_comps(root_abs, &root_comps);
        let home_comps = split_path(home);
        let home_dir = join_comps(path_is_abs(home), &home_comps);
        let mut files_comps = root_comps;
        let ghost rc0 = files_comps.deep_view();
        files_comps.push(files_dir_name_vec());
        proof {
            assert(files_comps.deep_view() =~~= rc0.push(files_dir_name()));
        }
        let files_dir = join_comps(root_abs, &files_comps);
        proof {
            lemma_canon_idem(root@);
            lemma_canon_idem(home@);
        }
        Paths { home_dir, root_dir, files_dir }
    }

    /// The managed root directory.
    pub fn root_dir(&self) -> (r: &Vec<u8>)
        ensures
            r@ == self.root_dir@,
    {
        &self.root_dir
    }
}

/// With a well-formed context, the mirror directory decomposes into the
/// root's components followed by the mirror subdirectory name.
pub proof fn lemma_paths_files_components(p: &Paths)
    requires
        p.wf(),
    ensures
        components(p.files_dir@) == components(p.root_dir@).push(files_dir_name()),
        is_abs(p.files_dir@) == is_abs(p.root_dir@),
{
    lemma_components_valid(p.root_dir@);
    lemma_const_comps_valid();
    lemma_canon_idem(p.root_dir@);
    assert(forall|i: int|
        0 <= i < components(p.root_dir@).push(files_dir_name()).len() ==> is_comp(
            #[trigger] components(p.root_dir@).push(files_dir_name())[i],
        ));
    lemma_components_join(is_abs(p.root_dir@), components(p.root_dir@).push(files_dir_name()));
    assert(components(p.files_dir@) == components(canon(p.root_dir@)).push(files_dir_name()));
}

/// How one more source component extends the mirror components.
pub proof fn lemma_repo_comps_push(s: Seq<Seq<u8>>, x: Seq<u8>)
    ensures
        repo_comps(s.push(x)) == if x == parent_comp() {
            repo_comps(s)
        } else {
            repo_comps(s).push(repo_comp(x))
        },
{
    lemma_filter_push(s, x, keep_comp_pred());
    if x != parent_comp() {
        assert(s.push(x).filter(keep_comp_pred()) == s.filter(keep_comp_pred()).push(x));
        assert(s.filter(keep_comp_pred()).push(x).map_values(repo_comp_fn()) =~= s.filter(
            keep_comp_pred(),
        ).map_values(repo_comp_fn()).push(repo_comp(x)));
    }
}

impl Paths {
    /// Maps a candidate path to all its locations, or to nothing when the
    /// path lies inside the managed root. The shared core behind the file
    /// and directory resolvers.
    fn resolve(&self, p: &Vec<u8>) -> (r: Option<DirPathInfo>)
        requires
            self.wf(),
        ensures
            r is None <==> path_in(self.root_dir@, p@),
            r matches Some(e) ==> {
                let rc = repo_comps(spec_src_comps(self.home_dir@, p@));
                &&& e.full_src_path@ == p@
                &&& e.src_path@ == spec_src_path(self.home_dir@, p@)
                &&& e.config_repo_path@ == spec_config_repo_path(self.home_dir@, p@)
                &&& e.repo_path@ == spec_repo_path_of(rc)
                &&& e.full_repo_path@ == spec_full_repo_of(self.files_dir@, rc)
                &&& e.full_parent_repo_path@ == spec_parent_repo_of(
                    self.root_dir@,
                    self.files_dir@,
                    rc,
                )
            },
    {
        let p_comps = split_path(p);
        let p_abs = path_is_abs(p);
        let root_comps = split_path(&self.root_dir);
        let root_abs = path_is_abs(&self.root_dir);
        if p_abs == root_abs && comps_prefix(&root_comps, &p_comps) {
            return None;
        }
        let home_comps = split_path(&self.home_dir);
        let home_abs = path_is_abs(&self.home_dir);
        let under_home = p_abs == home_abs && comps_prefix(&home_comps, &p_comps);
        let ghost src_view = spec_src_comps(self.home_dir@, p@);

        let mut src_comps: Vec<Vec<u8>> = Vec::new();
        if under_home {
            src_comps.push(tilde_comp_vec());
            proof {
                assert(src_comps.deep_view() =~~= seq![tilde_comp()]);
            }
            let hl = home_comps.len();
            let mut i: usize = hl;
            proof {
                assert(hl <= p_comps.len());
                assert(src_comps.deep_view() =~= seq![tilde_comp()] + p_comps.deep_view().subrange(
                    hl as int,
                    hl as int,
                ));
            }
            while i < p_comps.len()
                invariant
                    hl <= i <= p_comps.len(),
                    p_comps.deep_view().len() == p_comps@.len(),
                    src_comps.deep_view() == seq![tilde_comp()] + p_comps.deep_view().subrange(
                        hl as int,
                        i as int,
                    ),
                decreases p_comps.len() - i,
            {
                let ghost before = src_comps.deep_view();
                src_comps.push(copy_bytes(&p_comps[i]));
                proof {
                    assert(src_comps.deep_view() =~~= before.push(p_comps.deep_view()[i as int]));
                    assert(src_comps.deep_view() =~= seq![tilde_comp()]
                        + p_comps.deep_view().subrange(hl as int, i + 1));
                }
                i += 1;
            }
            proof {
                assert(p_comps.deep_view().subrange(hl as int, p_comps.deep_view().len() as int)
                    =~= components(p@).skip(hl as int));
                assert(src_comps.deep_view() == src_view);
            }
        } else {
            let mut i: usize = 0;
            proof {
                assert(src_comps.deep_view() =~= p_comps.deep_view().subrange(0, 0));
            }
            while i < p_comps.len()
                invariant
                    i <= p_comps.len(),
                    p_comps.deep_view().len() == p_comps@.len(),
                    src_comps.deep_view() == p_comps.deep_view().subrange(0, i as int),
                decreases p_comps.len() - i,
            {
                let ghost before = src_comps.deep_view();
                src_comps.push(copy_bytes(&p_comps[i]));
                proof {
                    assert(src_comps.deep_view() =~~= before.push(p_comps.deep_view()[i as int]));
                    assert(src_comps.deep_view() =~= p_comps.deep_view().subrange(0, i + 1));
                }
                i += 1;
            }
            proof {
                assert(p_comps.deep_view().subrange(0, p_comps.deep_view().len() as int)
                    =~= p_comps.deep_view());
                assert(src_comps.deep_view() == src_view);
            }
        }
        let src_abs = !under_home && p_abs;
        let src_path = join_comps(src_abs, &src_comps);
        proof {
            assert(src_path@ == spec_src_path(self.home_dir@, p@));
        }

        let mut rc: Vec<Vec<u8>> = Vec::new();
        let mut i: usize = 0;
        proof {
            assert(src_comps.deep_view().subrange(0, 0) =~= Seq::<Seq<u8>>::empty());
            assert(Seq::<Seq<u8>>::empty().filter(keep_comp_pred()) =~= Seq::<Seq<u8>>::empty())
                by {
                reveal(Seq::filter);
            }
            assert(rc.deep_view() =~= repo_comps(src_comps.deep_view().subrange(0, 0)));
        }
        while i < src_comps.len()
            invariant
                i <= src_comps.len(),
                src_comps.deep_view().len() == src_comps@.len(),
                rc.deep_view() == repo_comps(src_comps.deep_view().subrange(0, i as int)),
            decreases src_comps.len() - i,
        {
            let c = &src_comps[i];
            let ghost cv = c@;
            proof {
                assert(cv == src_comps.deep_view()[i as int]);
                assert(src_comps.deep_view().subrange(0, i + 1) =~= src_comps.deep_view().subrange(
                    0,
                    i as int,
                ).push(cv));
                lemma_repo_comps_push(src_comps.deep_view().subrange(0, i as int), cv);
            }
            let is_parent = c.len() == 2 && c[0] == DOT && c[1] == DOT;
            proof {
                if is_parent {
                    assert(cv =~= parent_comp());
                } else {
                    if cv == parent_comp() {
                        assert(c@.len() == 2 && c@[0] == DOT && c@[1] == DOT);
                    }
                }
            }
            if !is_parent {
                let is_tilde = c.len() == 1 && c[0] == TILDE;
                proof {
                    if is_tilde {
                        assert(cv =~= tilde_comp());
                    } else {
                        if cv == tilde_comp() {
                            assert(c@.len() == 1 && c@[0] == TILDE);
                        }
                    }
                }
                let ghost before = rc.deep_view();
                if is_tilde {
                    rc.push(home_map_name_vec());
                } else if c.len() > 0 && c[0] == DOT {
                    rc.push(tail_bytes(c));
                } else {
                    rc.push(copy_bytes(c));
                }
                proof {
                    assert(rc.deep_view() =~~= before.push(repo_comp(cv)));
                }
            }
            proof {
                assert(rc.deep_view() == repo_comps(src_comps.deep_view().subrange(0, i + 1)));
            }
            i += 1;
        }
        proof {
            assert(src_comps.deep_view().subrange(0, src_comps.deep_view().len() as int)
                =~= src_comps.deep_view());
            assert(rc.deep_view() == repo_comps(src_view));
        }
        let config_repo_path = join_comps(false, &rc);

        let (repo_path, full_repo_path, full_parent_repo_path) = self.repo_locations(&rc);

        Some(
            DirPathInfo {
                full_src_path: copy_bytes(p),
                src_path,
                repo_path,
                full_parent_repo_path,
                full_repo_path,
                config_repo_path,
            },
        )
    }

    /// The stage path, mirror location, and mirror parent of a mirror
    /// component vector.
    fn repo_locations(&self, rc: &Vec<Vec<u8>>) -> (r: (Vec<u8>, Vec<u8>, Vec<u8>))
        requires
            self.wf(),
        ensures
            r.0@ == spec_repo_path_of(rc.deep_view()),
            r.1@ == spec_full_repo_of(self.files_dir@, rc.deep_view()),
            r.2@ == spec_parent_repo_of(self.root_dir@, self.files_dir@, rc.deep_view()),
    {
        let mut repo_all: Vec<Vec<u8>> = Vec::new();
        repo_all.push(files_dir_name_vec());
        proof {
            assert(repo_all.deep_view() =~~= seq![files_dir_name()]);
            assert(repo_all.deep_view() =~= seq![files_dir_name()] + rc.deep_view().subrange(0, 0));
        }
        let mut j: usize = 0;
        while j < rc.len()
            invariant
                j <= rc.len(),
                rc.deep_view().len() == rc@.len(),
                repo_all.deep_view() == seq![files_dir_name()] + rc.deep_view().subrange(
                    0,
                    j as int,
                ),
            decreases rc.len() - j,
        {
            let ghost before = repo_all.deep_view();
            repo_all.push(copy_bytes(&rc[j]));
            proof {
                assert(repo_all.deep_view() =~~= before.push(rc.deep_view()[j as int]));
                assert(repo_all.deep_view() =~= seq![files_dir_name()] + rc.deep_view().subrange(
                    0,
                    j + 1,
                ));
            }
            j += 1;
        }
        proof {
            assert(rc.deep_view().subrange(0, rc.deep_view().len() as int) =~= rc.deep_view());
        }
        let repo_path = join_comps(false, &repo_all);

        let files_comps = split_path(&self.files_dir);
        let files_abs = path_is_abs(&self.files_dir);
        let mut full_comps = files_comps;
        let ghost files_view = full_comps.deep_view();
        let mut j: usize = 0;
        proof {
            assert(full_comps.deep_view() =~= files_view + rc.deep_view().subrange(0, 0));
        }
        while j < rc.len()
            invariant
                j <= rc.len(),
                rc.deep_view().len() == rc@.len(),
                full_comps.deep_view() == files_view + rc.deep_view().subrange(0, j as int),
            decreases rc.len() - j,
        {
            let ghost before = full_comps.deep_view();
            full_comps.push(copy_bytes(&rc[j]));
            proof {
                assert(full_comps.deep_view() =~~= before.push(rc.deep_view()[j as int]));
                assert(full_comps.deep_view() =~= files_view + rc.deep_view().subrange(0, j + 1));
            }
            j += 1;
        }
        proof {
            assert(rc.deep_view().subrange(0, rc.deep_view().len() as int) =~= rc.deep_view());
        }
        let full_repo_path = join_comps(files_abs, &full_comps);

        let full_parent_repo_path = if rc.len() == 0 {
            copy_bytes(&self.root_dir)
        } else {
            let mut parent_comps = split_path(&self.files_dir);
            let ghost fv2 = parent_comps.deep_view();
            let mut j: usize = 0;
            proof {
                assert(parent_comps.deep_view() =~= fv2 + rc.deep_view().subrange(0, 0));
            }
            while j < rc.len() - 1
                invariant
                    rc@.len() >= 1,
                    j <= rc.len() - 1,
                    rc.deep_view().len() == rc@.len(),
                    parent_comps.deep_view() == fv2 + rc.deep_view().subrange(0, j as int),
                decreases rc.len() - 1 - j,
            {
                let ghost before = parent_comps.deep_view();
                parent_comps.push(copy_bytes(&rc[j]));
                proof {
                    assert(parent_comps.deep_view() =~~= before.push(rc.deep_view()[j as int]));
                    assert(parent_comps.deep_view() =~= fv2 + rc.deep_view().subrange(0, j + 1));
                }
                j += 1;
            }
            proof {
                assert(rc.deep_view().subrange(0, rc.deep_view().len() - 1) =~= rc.deep_view()
                    .drop_last());
            }
            join_comps(files_abs, &parent_comps)
        };

        (repo_path, full_repo_path, full_parent_repo_path)
    }

}

/// The mathematical content of a [`FilePathInfo`].
pub struct FileEntryV {
    pub full_src_path: Seq<u8>,
    pub src_path: Seq<u8>,
    pub full_repo_path: Seq<u8>,
    pub repo_path: Seq<u8>,
    pub config_repo_path: Seq<u8>,
}

/// The mathematical content of a [`DirPathInfo`].
pub struct DirEntryV {
    pub full_src_path: Seq<u8>,
    pub src_path: Seq<u8>,
    pub repo_path: Seq<u8>,
    pub full_parent_repo_path: Seq<u8>,
    pub full_repo_path: Seq<u8>,
    pub config_repo_path: Seq<u8>,
}

impl View for FilePathInfo {
    type V = FileEntryV;

    open spec fn view(&self) -> FileEntryV {
        FileEntryV {
            full_src_path: self.full_src_path@,
            src_path: self.src_path@,
            full_repo_path: self.full_repo_path@,
            repo_path: self.repo_path@,
            config_repo_path: self.config_repo_path@,
        }
    }
}

impl View for DirPathInfo {
    type V = DirEntryV;

    open spec fn view(&self) -> DirEntryV {
        DirEntryV {
            full_src_path: self.full_src_path@,
            src_path: self.src_path@,
            repo_path: self.repo_path@,
            full_parent_repo_path: self.full_parent_repo_path@,
            full_repo_path: self.full_repo_path@,
            config_repo_path: self.config_repo_path@,
        }
    }
}

/// Where the forward mapping places a file found at `p`.
pub open spec fn spec_file_entry(home: Seq<u8>, files_dir: Seq<u8>, p: Seq<u8>) -> FileEntryV {
    let rc = repo_comps(spec_src_comps(home, p));
    FileEntryV {
        full_src_path: p,
        src_path: spec_src_path(home, p),
        full_repo_path: spec_full_repo_of(files_dir, rc),
        repo_path: spec_repo_path_of(rc),
        config_repo_path: spec_config_repo_path(home, p),
    }
}

/// Where the forward mapping places a directory found at `p`.
pub open spec fn spec_dir_entry(home: Seq<u8>, root_dir: Seq<u8>, files_dir: Seq<u8>, p: Seq<u8>) -> DirEntryV {
    let rc = repo_comps(spec_src_comps(home, p));
    DirEntryV {
        full_src_path: p,
        src_path: spec_src_path(home, p),
        repo_path: spec_repo_path_of(rc),
        full_parent_repo_path: spec_parent_repo_of(root_dir, files_dir, rc),
        full_repo_path: spec_full_repo_of(files_dir, rc),
        config_repo_path: spec_config_repo_path(home, p),
    }
}

impl Paths {
    /// Maps a file's path to all its locations; `None` exactly when the
    /// path lies inside the managed root, which is never tracked.
    pub fn resolve_file_paths(&self, p: &Vec<u8>) -> (r: Option<FilePathInfo>)
        requires
            self.wf(),
        ensures
            r is None <==> path_in(self.root_dir@, p@),
            r matches Some(e) ==> e@ == spec_file_entry(self.home_dir@, self.files_dir@, p@),
    {
        match self.resolve(p) {
            None => None,
            Some(d) => {
                let DirPathInfo {
                    full_src_path,
                    src_path,
                    repo_path,
                    full_parent_repo_path: _,
                    full_repo_path,
                    config_repo_path,
                } = d;
                Some(
                    FilePathInfo {
                        full_src_path,
                        src_path,
                        full_repo_path,
                        repo_path,
                        config_repo_path,
                    },
                )
            },
        }
    }

    /// Maps a directory's path to all its locations; `None` exactly when
    /// the path lies inside the managed root.
    pub fn resolve_dir_paths(&self, p: &Vec<u8>) -> (r: Option<DirPathInfo>)
        requires
            self.wf(),
        ensures
            r is None <==> path_in(self.root_dir@, p@),
            r matches Some(e) ==> e@ == spec_dir_entry(
                self.home_dir@,
                self.root_dir@,
                self.files_dir@,
                p@,
            ),
    {
        self.resolve(p)
    }

    /// The mirror location of a file's path, or `None` when the path lies
    /// inside the managed root.
    pub fn file_path(&self, p: &Vec<u8>) -> (r: Option<Vec<u8>>)
        requires
            self.wf(),
        ensures
            r is None <==> path_in(self.root_dir@, p@),
            r matches Some(fp) ==> fp@ == spec_full_repo_of(
                self.files_dir@,
                repo_comps(spec_src_comps(self.home_dir@, p@)),
            ),
    {
        match self.resolve(p) {
            None => None,
            Some(d) => Some(d.full_repo_path),
        }
    }
}

/// The mathematical content of a file entry, as a function value.
pub open spec fn file_info_view_fn() -> spec_fn(FilePathInfo) -> FileEntryV {
    |e: FilePathInfo| e@
}

/// The mathematical content of a directory entry, as a function value.
pub open spec fn dir_info_view_fn() -> spec_fn(DirPathInfo) -> DirEntryV {
    |e: DirPathInfo| e@
}

/// The entry a stored manifest pair rebuilds to, as a function value.
pub open spec fn file_entry_from_config_fn(home: Seq<u8>, files_dir: Seq<u8>) -> spec_fn(
    (Seq<u8>, Seq<u8>),
) -> FileEntryV {
    |kv: (Seq<u8>, Seq<u8>)| spec_file_entry_from_config(home, files_dir, kv.0, kv.1)
}

/// The directory entry a stored manifest pair rebuilds to, as a function
/// value.
pub open spec fn dir_entry_from_config_fn(
    home: Seq<u8>,
    root_dir: Seq<u8>,
    files_dir: Seq<u8>,
) -> spec_fn((Seq<u8>, Seq<u8>)) -> DirEntryV {
    |kv: (Seq<u8>, Seq<u8>)| spec_dir_entry_from_config(home, root_dir, files_dir, kv.0, kv.1)
}

/// The entry rebuilt from a manifest pair: the stored source form and the
/// stored mirror path, both kept as written.
pub open spec fn spec_file_entry_from_config(
    home: Seq<u8>,
    files_dir: Seq<u8>,
    src: Seq<u8>,
    config: Seq<u8>,
) -> FileEntryV {
    FileEntryV {
        full_src_path: spec_full_src(home, src),
        src_path: src,
        full_repo_path: spec_full_repo_of(files_dir, components(config)),
        repo_path: spec_repo_path_of(components(config)),
        config_repo_path: config,
    }
}

/// See [`spec_file_entry_from_config`]; a directory also regains the parent
/// of its mirror location.
pub open spec fn spec_dir_entry_from_config(
    home: Seq<u8>,
    root_dir: Seq<u8>,
    files_dir: Seq<u8>,
    src: Seq<u8>,
    config: Seq<u8>,
) -> DirEntryV {
    DirEntryV {
        full_src_path: spec_full_src(home, src),
        src_path: src,
        repo_path: spec_repo_path_of(components(config)),
        full_parent_repo_path: spec_parent_repo_of(root_dir, files_dir, components(config)),
        full_repo_path: spec_full_repo_of(files_dir, components(config)),
        config_repo_path: config,
    }
}

impl Paths {
    /// The absolute source location of a stored source form: a
    /// sentinel-led form is grafted back onto the home directory, any
    /// other form is already absolute.
    fn expand_src(&self, src_path: &Vec<u8>) -> (r: Vec<u8>)
        requires
            self.wf(),
        ensures
            r@ == spec_full_src(self.home_dir@, src_path@),
    {
        let src_comps = split_path(src_path);
        let src_abs = path_is_abs(src_path);
        let home_form = !src_abs && src_comps.len() > 0 && {
            let c = &src_comps[0];
            c.len() == 1 && c[0] == TILDE
        };
        proof {
            if src_comps.len() > 0 {
                let c0 = src_comps.deep_view()[0];
                if c0.len() == 1 && c0[0] == TILDE {
                    assert(c0 =~= tilde_comp());
                } else {
                    if c0 == tilde_comp() {
                        assert(c0.len() == 1 && c0[0] == TILDE);
                    }
                }
            }
            assert(home_form == src_is_home_form(src_path@));
        }
        if home_form {
            let mut fc = split_path(&self.home_dir);
            let home_abs = path_is_abs(&self.home_dir);
            let ghost hv = fc.deep_view();
            let mut i: usize = 1;
            proof {
                assert(fc.deep_view() =~= hv + src_comps.deep_view().subrange(1, 1));
            }
            while i < src_comps.len()
                invariant
                    1 <= i <= src_comps.len(),
                    src_comps.deep_view().len() == src_comps@.len(),
                    fc.deep_view() == hv + src_comps.deep_view().subrange(1, i as int),
                decreases src_comps.len() - i,
            {
                let ghost before = fc.deep_view();
                fc.push(copy_bytes(&src_comps[i]));
                proof {
                    assert(fc.deep_view() =~~= before.push(src_comps.deep_view()[i as int]));
                    assert(fc.deep_view() =~= hv + src_comps.deep_view().subrange(1, i + 1));
                }
                i += 1;
            }
            proof {
                assert(src_comps.deep_view().subrange(1, src_comps.deep_view().len() as int)
                    =~= components(src_path@).drop_first());
            }
            join_comps(home_abs, &fc)
        } else {
            copy_bytes(src_path)
        }
    }

    /// Rebuilds a file entry from the pair stored in the manifest, without
    /// touching the filesystem. The exact inverse of the forward mapping's
    /// stored forms.
    pub fn resolve_file_paths_from_config_paths(
        &self,
        src_path: &Vec<u8>,
        config_repo_path: &Vec<u8>,
    ) -> (r: FilePathInfo)
        requires
            self.wf(),
        ensures
            r@ == spec_file_entry_from_config(
                self.home_dir@,
                self.files_dir@,
                src_path@,
                config_repo_path@,
            ),
    {
        let full_src_path = self.expand_src(src_path);
        let rc = split_path(config_repo_path);
        let (repo_path, full_repo_path, _) = self.repo_locations(&rc);
        FilePathInfo {
            full_src_path,
            src_path: copy_bytes(src_path),
            full_repo_path,
            repo_path,
            config_repo_path: copy_bytes(config_repo_path),
        }
    }

    /// Rebuilds a directory entry from the pair stored in the manifest;
    /// see [`Paths::resolve_file_paths_from_config_paths`].
    pub fn resolve_dir_paths_from_config_paths(
        &self,
        src_path: &Vec<u8>,
        config_repo_path: &Vec<u8>,
    ) -> (r: DirPathInfo)
        requires
            self.wf(),
        ensures
            r@ == spec_dir_entry_from_config(
                self.home_dir@,
                self.root_dir@,
                self.files_dir@,
                src_path@,
                config_repo_path@,
            ),
    {
        let full_src_path = self.expand_src(src_path);
        let rc = split_path(config_repo_path);
        let (repo_path, full_repo_path, full_parent_repo_path) = self.repo_locations(&rc);
        DirPathInfo {
            full_src_path,
            src_path: copy_bytes(src_path),
            repo_path,
            full_parent_repo_path,
            full_repo_path,
            config_repo_path: copy_bytes(config_repo_path),
        }
    }
}

/// Every stored source component is well formed.
pub proof fn lemma_src_comps_valid(home: Seq<u8>, p: Seq<u8>)
    ensures
        forall|i: int|
            0 <= i < spec_src_comps(home, p).len() ==> is_comp(#[trigger] spec_src_comps(home, p)[i]),
{
    lemma_components_valid(p);
    lemma_const_comps_valid();
    let sc = spec_src_comps(home, p);
    if path_in(home, p) {
        let hl = components(home).len() as int;
        assert forall|i: int| 0 <= i < sc.len() implies is_comp(#[trigger] sc[i]) by {
            if i > 0 {
                assert(sc[i] == components(p)[hl + i - 1]);
            }
        }
    }
}

/// The stored mirror path splits back into exactly the mirror components
/// it was joined from.
pub proof fn lemma_config_components(home: Seq<u8>, p: Seq<u8>)
    ensures
        components(spec_config_repo_path(home, p)) == repo_comps(spec_src_comps(home, p)),
        !is_abs(spec_config_repo_path(home, p)),
{
    lemma_src_comps_valid(home, p);
    lemma_repo_comps_valid(spec_src_comps(home, p));
    lemma_components_join(false, repo_comps(spec_src_comps(home, p)));
}

/// The stored source form expands back to the canonical form of the path
/// it was made from. Holds for every trackable path that is absolute or
/// lies under the home directory; a relative path that itself begins with
/// the sentinel component is indistinguishable from a stored home form.
pub proof fn lemma_src_round_trip(home: Seq<u8>, p: Seq<u8>)
    requires
        path_in(home, p) || is_abs(p) || components(p).len() == 0 || components(p)[0]
            != tilde_comp(),
    ensures
        spec_full_src(home, spec_src_path(home, p)) == canon(p),
{
    lemma_components_valid(p);
    lemma_const_comps_valid();
    let src = spec_src_path(home, p);
    if path_in(home, p) {
        let hl = components(home).len() as int;
        let suffix = components(p).skip(hl);
        let sc = seq![tilde_comp()] + suffix;
        assert forall|i: int| 0 <= i < sc.len() implies is_comp(#[trigger] sc[i]) by {
            if i > 0 {
                assert(sc[i] == components(p)[hl + i - 1]);
            }
        }
        lemma_components_join(false, sc);
        assert(components(src) == sc);
        assert(src_is_home_form(src));
        assert(components(src).drop_first() =~= suffix);
        assert(components(home) + suffix =~= components(p)) by {
            assert(components(home).is_prefix_of(components(p)));
            assert(forall|i: int|
                0 <= i < hl ==> components(p)[i] == #[trigger] components(home)[i]);
        }
        assert(spec_full_src(home, src) == join_path(is_abs(home), components(home) + suffix));
        assert(is_abs(home) == is_abs(p));
    } else {
        lemma_components_join(is_abs(p), components(p));
        assert(src == canon(p));
        assert(components(src) == components(p));
        assert(is_abs(src) == is_abs(p));
        assert(!src_is_home_form(src));
    }
}

/// Round trip of the whole entry: rebuilding from the stored pair gives
/// the entry the forward mapping produced, with the source location in
/// canonical form.
pub proof fn lemma_file_entry_round_trip(home: Seq<u8>, files_dir: Seq<u8>, p: Seq<u8>)
    requires
        path_in(home, p) || is_abs(p) || components(p).len() == 0 || components(p)[0]
            != tilde_comp(),
    ensures
        ({
            let e = spec_file_entry(home, files_dir, p);
            let r = spec_file_entry_from_config(home, files_dir, e.src_path, e.config_repo_path);
            &&& r.full_src_path == canon(p)
            &&& r.src_path == e.src_path
            &&& r.config_repo_path == e.config_repo_path
            &&& r.repo_path == e.repo_path
            &&& r.full_repo_path == e.full_repo_path
        }),
{
    lemma_src_round_trip(home, p);
    lemma_config_components(home, p);
}

/// Round trip of a directory entry, including the parent of its mirror
/// location; see [`lemma_file_entry_round_trip`].
pub proof fn lemma_dir_entry_round_trip(
    home: Seq<u8>,
    root_dir: Seq<u8>,
    files_dir: Seq<u8>,
    p: Seq<u8>,
)
    requires
        path_in(home, p) || is_abs(p) || components(p).len() == 0 || components(p)[0]
            != tilde_comp(),
    ensures
        ({
            let e = spec_dir_entry(home, root_dir, files_dir, p);
            let r = spec_dir_entry_from_config(
                home,
                root_dir,
                files_dir,
                e.src_path,
                e.config_repo_path,
            );
            &&& r.full_src_path == canon(p)
            &&& r.src_path == e.src_path
            &&& r.config_repo_path == e.config_repo_path
            &&& r.repo_path == e.repo_path
            &&& r.full_repo_path == e.full_repo_path
            &&& r.full_parent_repo_path == e.full_parent_repo_path
        }),
{
    lemma_src_round_trip(home, p);
    lemma_config_components(home, p);
}

/// What a filesystem stat said a candidate path is. The classification is
/// made by the caller; only files and directories are trackable.
#[derive(Debug, PartialEq, Eq, Clone, Copy)]
pub enum PathKind {
    File,
    Dir,
    Missing,
}

/// A candidate path together with its filesystem classification.
#[derive(Debug)]
pub struct CandidatePath {
    pub path: Vec<u8>,
    pub kind: PathKind,
}

/// Filtering after a push appends the new element exactly when it passes.
pub proof fn lemma_filter_push_any<A>(s: Seq<A>, x: A, pred: spec_fn(A) -> bool)
    ensures
        s.push(x).filter(pred) == if pred(x) {
            s.filter(pred).push(x)
        } else {
            s.filter(pred)
        },
{
    reveal(Seq::filter);
    assert(s.push(x).drop_last() =~= s);
    assert(s.push(x).last() == x);
}

pub open spec fn file_cand_pred(root: Seq<u8>) -> spec_fn(CandidatePath) -> bool {
    |c: CandidatePath| c.kind is File && !path_in(root, c.path@)
}

pub open spec fn dir_cand_pred(root: Seq<u8>) -> spec_fn(CandidatePath) -> bool {
    |c: CandidatePath| c.kind is Dir && !path_in(root, c.path@)
}

pub open spec fn file_entry_fn(home: Seq<u8>, files_dir: Seq<u8>) -> spec_fn(CandidatePath) -> FileEntryV {
    |c: CandidatePath| spec_file_entry(home, files_dir, c.path@)
}

pub open spec fn dir_entry_fn(home: Seq<u8>, root: Seq<u8>, files_dir: Seq<u8>) -> spec_fn(CandidatePath) -> DirEntryV {
    |c: CandidatePath| spec_dir_entry(home, root, files_dir, c.path@)
}

/// The file entries of a batch: candidates that are files and do not lie
/// inside the managed root, in input order.
pub open spec fn spec_resolved_files(
    home: Seq<u8>,
    root: Seq<u8>,
    files_dir: Seq<u8>,
    cands: Seq<CandidatePath>,
) -> Seq<FileEntryV> {
    cands.filter(file_cand_pred(root)).map_values(file_entry_fn(home, files_dir))
}

/// The directory entries of a batch; see [`spec_resolved_files`].
pub open spec fn spec_resolved_dirs(
    home: Seq<u8>,
    root: Seq<u8>,
    files_dir: Seq<u8>,
    cands: Seq<CandidatePath>,
) -> Seq<DirEntryV> {
    cands.filter(dir_cand_pred(root)).map_values(dir_entry_fn(home, root, files_dir))
}

/// Self-reference exclusion over a batch: each resolved file entry comes
/// from a kept candidate, and every kept candidate lies outside the
/// managed root. Nothing under the root ever reaches the manifest or the
/// mirror.
pub proof fn lemma_batch_excludes_root(
    home: Seq<u8>,
    root: Seq<u8>,
    files_dir: Seq<u8>,
    cands: Seq<CandidatePath>,
)
    ensures
        spec_resolved_files(home, root, files_dir, cands).len() == cands.filter(
            file_cand_pred(root),
        ).len(),
        forall|i: int|
            0 <= i < spec_resolved_files(home, root, files_dir, cands).len() ==> !path_in(
                root,
                (#[trigger] cands.filter(file_cand_pred(root))[i]).path@,
            ) && spec_resolved_files(home, root, files_dir, cands)[i] == spec_file_entry(
                home,
                files_dir,
                cands.filter(file_cand_pred(root))[i].path@,
            ),
{
    broadcast use Seq::lemma_filter_pred;

    let kept = cands.filter(file_cand_pred(root));
    assert forall|i: int|
        0 <= i < spec_resolved_files(home, root, files_dir, cands).len() implies !path_in(
        root,
        (#[trigger] kept[i]).path@,
    ) && spec_resolved_files(home, root, files_dir, cands)[i] == spec_file_entry(
        home,
        files_dir,
        kept[i].path@,
    ) by {
        assert(file_cand_pred(root)(kept[i]));
    }
}

impl Paths {
    /// Maps a batch of classified candidate paths. Files and directories
    /// are resolved in input order; candidates inside the managed root and
    /// candidates that no longer exist are silently skipped.
    pub fn resolve_paths(&self, paths: &Vec<CandidatePath>) -> (r: (
        Vec<FilePathInfo>,
        Vec<DirPathInfo>,
    ))
        requires
            self.wf(),
        ensures
            r.0@.map_values(file_info_view_fn()) == spec_resolved_files(
                self.home_dir@,
                self.root_dir@,
                self.files_dir@,
                paths@,
            ),
            r.1@.map_values(dir_info_view_fn()) == spec_resolved_dirs(
                self.home_dir@,
                self.root_dir@,
                self.files_dir@,
                paths@,
            ),
    {
        let ghost home = self.home_dir@;
        let ghost root = self.root_dir@;
        let ghost files_dir = self.files_dir@;
        let mut files_out: Vec<FilePathInfo> = Vec::new();
        let mut dirs_out: Vec<DirPathInfo> = Vec::new();
        let mut i: usize = 0;
        proof {
            assert(paths@.subrange(0, 0) =~= Seq::<CandidatePath>::empty());
            assert(Seq::<CandidatePath>::empty().filter(file_cand_pred(root))
                =~= Seq::<CandidatePath>::empty()) by {
                reveal(Seq::filter);
            }
            assert(Seq::<CandidatePath>::empty().filter(dir_cand_pred(root))
                =~= Seq::<CandidatePath>::empty()) by {
                reveal(Seq::filter);
            }
            assert(files_out@.map_values(file_info_view_fn()) =~= spec_resolved_files(
                home,
                root,
                files_dir,
                paths@.subrange(0, 0),
            ));
            assert(dirs_out@.map_values(dir_info_view_fn()) =~= spec_resolved_dirs(
                home,
                root,
                files_dir,
                paths@.subrange(0, 0),
            ));
        }
        while i < paths.len()
            invariant
                i <= paths@.len(),
                self.wf(),
                home == self.home_dir@,
                root == self.root_dir@,
                files_dir == self.files_dir@,
                files_out@.map_values(file_info_view_fn()) == spec_resolved_files(
                    home,
                    root,
                    files_dir,
                    paths@.subrange(0, i as int),
                ),
                dirs_out@.map_values(dir_info_view_fn()) == spec_resolved_dirs(
                    home,
                    root,
                    files_dir,
                    paths@.subrange(0, i as int),
                ),
            decreases paths@.len() - i,
        {
            let c = &paths[i];
            proof {
                assert(paths@.subrange(0, i + 1) =~= paths@.subrange(0, i as int).push(
                    paths@[i as int],
                ));
                lemma_filter_push_any(
                    paths@.subrange(0, i as int),
                    paths@[i as int],
                    file_cand_pred(root),
                );
                lemma_filter_push_any(
                    paths@.subrange(0, i as int),
                    paths@[i as int],
                    dir_cand_pred(root),
                );
            }
            let ghost files_before = files_out@.map_values(file_info_view_fn());
            let ghost dirs_before = dirs_out@.map_values(dir_info_view_fn());
            match c.kind {
                PathKind::File => {
                    match self.resolve_file_paths(&c.path) {
                        Some(e) => {
                            proof {
                                assert(file_cand_pred(root)(paths@[i as int]));
                            }
                            files_out.push(e);
                            proof {
                                assert(files_out@.map_values(file_info_view_fn())
                                    =~= files_before.push(
                                    file_entry_fn(home, files_dir)(paths@[i as int]),
                                ));
                            }
                        },
                        None => {
                            proof {
                                assert(!file_cand_pred(root)(paths@[i as int]));
                            }
                        },
                    }
                },
                PathKind::Dir => {
                    match self.resolve_dir_paths(&c.path) {
                        Some(e) => {
                            proof {
                                assert(dir_cand_pred(root)(paths@[i as int]));
                            }
                            dirs_out.push(e);
                            proof {
                                assert(dirs_out@.map_values(dir_info_view_fn())
                                    =~= dirs_before.push(
                                    dir_entry_fn(home, root, files_dir)(paths@[i as int]),
                                ));
                            }
                        },
                        None => {
                            proof {
                                assert(!dir_cand_pred(root)(paths@[i as int]));
                            }
                        },
                    }
                },
                PathKind::Missing => {
                    proof {
                        assert(!file_cand_pred(root)(paths@[i as int]));
                        assert(!dir_cand_pred(root)(paths@[i as int]));
                    }
                },
            }
            proof {
                assert(files_out@.map_values(file_info_view_fn()) =~= spec_resolved_files(
                    home,
                    root,
                    files_dir,
                    paths@.subrange(0, i + 1),
                ));
                assert(dirs_out@.map_values(dir_info_view_fn()) =~= spec_resolved_dirs(
                    home,
                    root,
                    files_dir,
                    paths@.subrange(0, i + 1),
                ));
            }
            i += 1;
        }
        proof {
            assert(paths@.subrange(0, paths@.len() as int) =~= paths@);
        }
        (files_out, dirs_out)
    }
}

/// The canonical byte path of `p`'s parent directory; a path with no
/// components is its own parent.
pub fn parent_of(p: &Vec<u8>) -> (r: Vec<u8>)
    ensures
        components(p@).len() == 0 ==> r@ == join_path(is_abs(p@), components(p@)),
        components(p@).len() > 0 ==> r@ == join_path(is_abs(p@), components(p@).drop_last()),
{
    let mut comps = split_path(p);
    let abs = path_is_abs(p);
    let ghost before = comps.deep_view();
    if comps.len() > 0 {
        let _ = comps.pop();
        proof {
            assert(comps.deep_view() =~= before.drop_last());
        }
    }
    join_comps(abs, &comps)
}

} // verus!
