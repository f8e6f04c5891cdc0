//! The manifest's on-disk form: structured text with two sections, one
//! mapping per line, keys and values quoted and escaped.
//!
//! ```text
//! [dirs]
//! "~/ssh" = "home/ssh"
//! [files]
//! "~/.zshrc" = "home/zshrc"
//! ```
//!
//! Serialisation is exact and parsing is its proved left inverse, so a
//! manifest survives a save and a load byte for byte.

use vstd::prelude::*;

verus! {

pub const QUOTE: u8 = 34;

pub const BSLASH: u8 = 92;

pub const NL: u8 = 10;

pub const SP: u8 = 32;

pub const EQ: u8 = 61;

/// The escape letter for a newline, `n`.
pub const ESC_NL: u8 = 110;

/// How one byte appears inside a quoted string: quote, backslash and
/// newline hide behind a backslash, everything else stands for itself.
pub open spec fn esc_byte(b: u8) -> Seq<u8> {
    if b == QUOTE {
        seq![BSLASH, QUOTE]
    } else if b == BSLASH {
        seq![BSLASH, BSLASH]
    } else if b == NL {
        seq![BSLASH, ESC_NL]
    } else {
        seq![b]
    }
}

/// What an escape letter stands for; other letters are invalid escapes.
pub open spec fn unesc_byte(b: u8) -> Option<u8> {
    if b == QUOTE {
        Some(QUOTE)
    } else if b == BSLASH {
        Some(BSLASH)
    } else if b == ESC_NL {
        Some(NL)
    } else {
        None
    }
}

/// A byte string with every byte escaped.
pub open spec fn escape(s: Seq<u8>) -> Seq<u8>
    decreases s.len(),
{
    if s.len() == 0 {
        Seq::<u8>::empty()
    } else {
        esc_byte(s[0]) + escape(s.drop_first())
    }
}

/// A byte string escaped and wrapped in quotes.
pub open spec fn quoted(s: Seq<u8>) -> Seq<u8> {
    seq![QUOTE] + escape(s) + seq![QUOTE]
}

/// One manifest line: `"key" = "value"` and a newline.
pub open spec fn line_of(kv: (Seq<u8>, Seq<u8>)) -> Seq<u8> {
    quoted(kv.0) + seq![SP, EQ, SP] + quoted(kv.1) + seq![NL]
}

/// The lines of an entry list, in order.
pub open spec fn lines_of(es: Seq<(Seq<u8>, Seq<u8>)>) -> Seq<u8>
    decreases es.len(),
{
    if es.len() == 0 {
        Seq::<u8>::empty()
    } else {
        line_of(es[0]) + lines_of(es.drop_first())
    }
}

/// The directory section header, `[dirs]` and a newline.
pub open spec fn dirs_header() -> Seq<u8> {
    seq![91u8, 100u8, 105u8, 114u8, 115u8, 93u8, 10u8]
}

/// The file section header, `[files]` and a newline.
pub open spec fn files_header() -> Seq<u8> {
    seq![91u8, 102u8, 105u8, 108u8, 101u8, 115u8, 93u8, 10u8]
}

/// A whole manifest document: the directory section, then the file
/// section.
pub open spec fn doc_of(dirs: Seq<(Seq<u8>, Seq<u8>)>, files: Seq<(Seq<u8>, Seq<u8>)>) -> Seq<u8> {
    dirs_header() + lines_of(dirs) + files_header() + lines_of(files)
}

/// Reads a quoted string's inside, starting just after the opening quote:
/// the unescaped content and the count of bytes consumed, closing quote
/// included. A raw newline, a bad escape, or a missing closing quote is a
/// parse error.
pub open spec fn spec_parse_qinner(s: Seq<u8>) -> Option<(Seq<u8>, int)>
    decreases s.len(),
{
    if s.len() == 0 {
        None
    } else if s[0] == QUOTE {
        Some((Seq::<u8>::empty(), 1))
    } else if s[0] == BSLASH {
        if s.len() < 2 {
            None
        } else {
            match unesc_byte(s[1]) {
                None => None,
                Some(c) => match spec_parse_qinner(s.skip(2)) {
                    None => None,
                    Some((u, n)) => Some((seq![c] + u, n + 2)),
                },
            }
        }
    } else if s[0] == NL {
        None
    } else {
        match spec_parse_qinner(s.skip(1)) {
            None => None,
            Some((u, n)) => Some((seq![s[0]] + u, n + 1)),
        }
    }
}

/// Reads one manifest line from the front of `s`: the pair and the count
/// of bytes consumed, newline included.
pub open spec fn spec_parse_line(s: Seq<u8>) -> Option<((Seq<u8>, Seq<u8>), int)> {
    if s.len() < 1 || s[0] != QUOTE {
        None
    } else {
        match spec_parse_qinner(s.skip(1)) {
            None => None,
            Some((k, n1)) => {
                let r = s.skip(1 + n1);
                if r.len() < 4 || r[0] != SP || r[1] != EQ || r[2] != SP || r[3] != QUOTE {
                    None
                } else {
                    match spec_parse_qinner(r.skip(4)) {
                        None => None,
                        Some((v, n2)) => {
                            let r2 = r.skip(4 + n2);
                            if r2.len() < 1 || r2[0] != NL {
                                None
                            } else {
                                Some(((k, v), 1 + n1 + 4 + n2 + 1))
                            }
                        },
                    }
                }
            },
        }
    }
}

/// Reads lines from the front of `s` for as long as one starts (with a
/// quote): the pairs in file order and the count of bytes consumed.
pub open spec fn spec_parse_entries(s: Seq<u8>) -> Option<(Seq<(Seq<u8>, Seq<u8>)>, int)>
    decreases s.len(),
{
    if s.len() == 0 || s[0] != QUOTE {
        Some((Seq::<(Seq<u8>, Seq<u8>)>::empty(), 0))
    } else {
        match spec_parse_line(s) {
            None => None,
            Some((kv, n)) => {
                if 1 <= n <= s.len() {
                    match spec_parse_entries(s.skip(n)) {
                        None => None,
                        Some((rest, m)) => Some((seq![kv] + rest, n + m)),
                    }
                } else {
                    None
                }
            },
        }
    }
}

/// Reads a whole manifest document: both section headers in order, their
/// entries, and nothing after them.
pub open spec fn spec_parse_doc(s: Seq<u8>) -> Option<
    (Seq<(Seq<u8>, Seq<u8>)>, Seq<(Seq<u8>, Seq<u8>)>),
> {
    if s.len() < 7 || s.subrange(0, 7) != dirs_header() {
        None
    } else {
        match spec_parse_entries(s.skip(7)) {
            None => None,
            Some((dirs, n)) => {
                let r = s.skip(7 + n);
                if r.len() < 8 || r.subrange(0, 8) != files_header() {
                    None
                } else {
                    match spec_parse_entries(r.skip(8)) {
                        None => None,
                        Some((files, m)) => {
                            if m == r.len() - 8 {
                                Some((dirs, files))
                            } else {
                                None
                            }
                        },
                    }
                }
            },
        }
    }
}

/// Reading a quoted inside gives back exactly what was escaped, whatever
/// follows the closing quote.
pub proof fn lemma_parse_qinner_escape(k: Seq<u8>, rest: Seq<u8>)
    ensures
        spec_parse_qinner(escape(k) + seq![QUOTE] + rest) == Some(
            (k, (escape(k).len() + 1) as int),
        ),
        escape(k).len() >= k.len(),
    decreases k.len(),
{
    let s = escape(k) + seq![QUOTE] + rest;
    if k.len() == 0 {
        assert(escape(k) =~= Seq::<u8>::empty());
        assert(s[0] == QUOTE);
        assert(spec_parse_qinner(s) == Some((Seq::<u8>::empty(), 1int)));
        assert(k =~= Seq::<u8>::empty());
    } else {
        let b = k[0];
        let k2 = k.drop_first();
        lemma_parse_qinner_escape(k2, rest);
        assert(escape(k) == esc_byte(b) + escape(k2));
        if b == QUOTE || b == BSLASH || b == NL {
            assert(esc_byte(b).len() == 2);
            assert(s[0] == BSLASH);
            assert(s.len() >= 2);
            assert(unesc_byte(s[1]) == Some(b));
            assert(s.skip(2) =~= escape(k2) + seq![QUOTE] + rest);
            assert(seq![b] + k2 =~= k);
        } else {
            assert(esc_byte(b) =~= seq![b]);
            assert(s[0] == b);
            assert(b != QUOTE && b != BSLASH && b != NL);
            assert(s.skip(1) =~= escape(k2) + seq![QUOTE] + rest);
            assert(seq![b] + k2 =~= k);
        }
    }
}

/// Reading one line gives back exactly the pair it was written from,
/// whatever follows the newline.
pub proof fn lemma_parse_line_of(kv: (Seq<u8>, Seq<u8>), rest: Seq<u8>)
    ensures
        spec_parse_line(line_of(kv) + rest) == Some((kv, line_of(kv).len() as int)),
        line_of(kv).len() >= 8,
{
    let s = line_of(kv) + rest;
    let n1 = escape(kv.0).len() + 1;
    let n2 = escape(kv.1).len() + 1;
    assert(s[0] == QUOTE);
    assert(s.skip(1) =~= escape(kv.0) + seq![QUOTE] + (seq![SP, EQ, SP] + quoted(kv.1) + seq![NL]
        + rest));
    lemma_parse_qinner_escape(kv.0, seq![SP, EQ, SP] + quoted(kv.1) + seq![NL] + rest);
    let r = s.skip(1 + n1 as int);
    assert(r =~= seq![SP, EQ, SP] + quoted(kv.1) + seq![NL] + rest);
    assert(r.len() >= 4 && r[0] == SP && r[1] == EQ && r[2] == SP && r[3] == QUOTE);
    assert(r.skip(4) =~= escape(kv.1) + seq![QUOTE] + (seq![NL] + rest));
    lemma_parse_qinner_escape(kv.1, seq![NL] + rest);
    let r2 = r.skip(4 + n2 as int);
    assert(r2 =~= seq![NL] + rest);
    assert(r2[0] == NL);
    assert(line_of(kv).len() == 1 + n1 + 4 + n2 + 1);
    assert(spec_parse_line(s) == Some((kv, (1 + n1 + 4 + n2 + 1) as int)));
    assert((kv.0, kv.1) == kv);
}

/// Reading lines gives back exactly the entries they were written from,
/// provided what follows does not itself look like a line.
pub proof fn lemma_parse_entries_lines(es: Seq<(Seq<u8>, Seq<u8>)>, rest: Seq<u8>)
    requires
        rest.len() == 0 || rest[0] != QUOTE,
    ensures
        spec_parse_entries(lines_of(es) + rest) == Some((es, lines_of(es).len() as int)),
    decreases es.len(),
{
    let s = lines_of(es) + rest;
    if es.len() == 0 {
        assert(lines_of(es) =~= Seq::<u8>::empty());
        assert(s =~= rest);
        assert(es =~= Seq::<(Seq<u8>, Seq<u8>)>::empty());
    } else {
        let e0 = es[0];
        let es2 = es.drop_first();
        assert(lines_of(es) == line_of(e0) + lines_of(es2));
        assert(s =~= line_of(e0) + (lines_of(es2) + rest));
        lemma_parse_line_of(e0, lines_of(es2) + rest);
        let n = line_of(e0).len() as int;
        assert(s[0] == QUOTE);
        assert(1 <= n <= s.len());
        assert(s.skip(n) =~= lines_of(es2) + rest);
        lemma_parse_entries_lines(es2, rest);
        assert(seq![e0] + es2 =~= es);
        assert(lines_of(es).len() == n + lines_of(es2).len());
    }
}

/// A saved manifest parses back to exactly the entry lists it was saved
/// from: serialisation round-trips losslessly.
pub proof fn lemma_doc_round_trip(dirs: Seq<(Seq<u8>, Seq<u8>)>, files: Seq<(Seq<u8>, Seq<u8>)>)
    ensures
        spec_parse_doc(doc_of(dirs, files)) == Some((dirs, files)),
{
    let s = doc_of(dirs, files);
    assert(s.len() >= 15);
    assert(s.subrange(0, 7) =~= dirs_header());
    assert(s.skip(7) =~= lines_of(dirs) + (files_header() + lines_of(files)));
    assert((files_header() + lines_of(files))[0] == 91);
    lemma_parse_entries_lines(dirs, files_header() + lines_of(files));
    let n = lines_of(dirs).len() as int;
    let r = s.skip(7 + n);
    assert(r =~= files_header() + lines_of(files));
    assert(r.subrange(0, 8) =~= files_header());
    assert(r.skip(8) =~= lines_of(files) + Seq::<u8>::empty());
    lemma_parse_entries_lines(files, Seq::<u8>::empty());
    assert(spec_parse_entries(r.skip(8)) == Some((files, lines_of(files).len() as int)));
    assert(lines_of(files).len() == r.len() - 8);
}

/// One more byte escapes at the end.
pub proof fn lemma_escape_push(s: Seq<u8>, b: u8)
    ensures
        escape(s.push(b)) == escape(s) + esc_byte(b),
    decreases s.len(),
{
    if s.len() == 0 {
        assert(s.push(b)[0] == b);
        assert(s.push(b).len() == 1);
        assert(s.push(b).drop_first() =~= Seq::<u8>::empty());
        assert(escape(s.push(b)) == esc_byte(b) + escape(s.push(b).drop_first()));
        assert(escape(s.push(b).drop_first()) =~= Seq::<u8>::empty());
        assert(escape(s.push(b)) =~= escape(s) + esc_byte(b));
    } else {
        assert(s.push(b)[0] == s[0]);
        assert(s.push(b).drop_first() =~= s.drop_first().push(b));
        lemma_escape_push(s.drop_first(), b);
        assert(escape(s.push(b)) =~= escape(s) + esc_byte(b));
    }
}

/// One more entry writes one more line at the end.
pub proof fn lemma_lines_push(es: Seq<(Seq<u8>, Seq<u8>)>, e: (Seq<u8>, Seq<u8>))
    ensures
        lines_of(es.push(e)) == lines_of(es) + line_of(e),
    decreases es.len(),
{
    if es.len() == 0 {
        assert(es.push(e)[0] == e);
        assert(es.push(e).len() == 1);
        assert(es.push(e).drop_first() =~= Seq::<(Seq<u8>, Seq<u8>)>::empty());
        assert(lines_of(es.push(e)) == line_of(e) + lines_of(es.push(e).drop_first()));
        assert(lines_of(es.push(e).drop_first()) =~= Seq::<u8>::empty());
        assert(lines_of(es.push(e)) =~= lines_of(es) + line_of(e));
    } else {
        assert(es.push(e)[0] == es[0]);
        assert(es.push(e).drop_first() =~= es.drop_first().push(e));
        lemma_lines_push(es.drop_first(), e);
        assert(lines_of(es.push(e)) == line_of(es[0]) + lines_of(es.push(e).drop_first()));
        assert(lines_of(es.push(e)) =~= lines_of(es) + line_of(e));
    }
}

/// Appends the escaped form of `s` to `out`.
fn push_escaped(out: &mut Vec<u8>, s: &Vec<u8>)
    ensures
        final(out)@ == old(out)@ + escape(s@),
{
    let ghost base = out@;
    let mut i: usize = 0;
    proof {
        assert(escape(s@.subrange(0, 0)) =~= Seq::<u8>::empty());
        assert(out@ =~= base + escape(s@.subrange(0, 0)));
    }
    while i < s.len()
        invariant
            i <= s@.len(),
            out@ == base + escape(s@.subrange(0, i as int)),
        decreases s@.len() - i,
    {
        let b = s[i];
        proof {
            assert(s@.subrange(0, i + 1) =~= s@.subrange(0, i as int).push(b));
            lemma_escape_push(s@.subrange(0, i as int), b);
        }
        if b == QUOTE {
            out.push(BSLASH);
            out.push(QUOTE);
        } else if b == BSLASH {
            out.push(BSLASH);
            out.push(BSLASH);
        } else if b == NL {
            out.push(BSLASH);
            out.push(ESC_NL);
        } else {
            out.push(b);
        }
        proof {
            assert(out@ =~= base + escape(s@.subrange(0, i + 1)));
        }
        i += 1;
    }
    proof {
        assert(s@.subrange(0, s@.len() as int) =~= s@);
    }
}

/// Appends one manifest line for `e` to `out`.
fn push_line(out: &mut Vec<u8>, e: &crate::manifest::ManifestEntry)
    ensures
        final(out)@ == old(out)@ + line_of(e@),
{
    let ghost base = out@;
    out.push(QUOTE);
    push_escaped(out, &e.src_path);
    out.push(QUOTE);
    out.push(SP);
    out.push(EQ);
    out.push(SP);
    out.push(QUOTE);
    push_escaped(out, &e.config_repo_path);
    out.push(QUOTE);
    out.push(NL);
    proof {
        assert(out@ =~= base + line_of(e@));
    }
}

/// Appends the lines of the entry list to `out`, in order.
fn push_lines(out: &mut Vec<u8>, es: &Vec<crate::manifest::ManifestEntry>)
    ensures
        final(out)@ == old(out)@ + lines_of(crate::manifest::entry_views(es@)),
{
    let ghost base = out@;
    let ghost views = crate::manifest::entry_views(es@);
    let mut i: usize = 0;
    proof {
        assert(lines_of(views.subrange(0, 0)) =~= Seq::<u8>::empty());
        assert(out@ =~= base + lines_of(views.subrange(0, 0)));
    }
    while i < es.len()
        invariant
            i <= es@.len(),
            views == crate::manifest::entry_views(es@),
            views.len() == es@.len(),
            out@ == base + lines_of(views.subrange(0, i as int)),
        decreases es@.len() - i,
    {
        proof {
            assert(views.subrange(0, i + 1) =~= views.subrange(0, i as int).push(
                views[i as int],
            ));
            lemma_lines_push(views.subrange(0, i as int), views[i as int]);
            assert(views[i as int] == es@[i as int]@);
        }
        push_line(out, &es[i]);
        proof {
            assert(out@ =~= base + lines_of(views.subrange(0, i + 1)));
        }
        i += 1;
    }
    proof {
        assert(views.subrange(0, views.len() as int) =~= views);
    }
}

/// The serialized document for the two entry lists.
pub(crate) fn doc_to_bytes(
    dirs: &Vec<crate::manifest::ManifestEntry>,
    files: &Vec<crate::manifest::ManifestEntry>,
) -> (r: Vec<u8>)
    ensures
        r@ == doc_of(
            crate::manifest::entry_views(dirs@),
            crate::manifest::entry_views(files@),
        ),
{
    let mut out: Vec<u8> = Vec::new();
    out.push(91);
    out.push(100);
    out.push(105);
    out.push(114);
    out.push(115);
    out.push(93);
    out.push(10);
    proof {
        assert(out@ =~= dirs_header());
    }
    push_lines(&mut out, dirs);
    let ghost mid = out@;
    out.push(91);
    out.push(102);
    out.push(105);
    out.push(108);
    out.push(101);
    out.push(115);
    out.push(93);
    out.push(10);
    proof {
        assert(out@ =~= mid + files_header());
    }
    push_lines(&mut out, files);
    proof {
        assert(out@ =~= doc_of(
            crate::manifest::entry_views(dirs@),
            crate::manifest::entry_views(files@),
        ));
    }
    out
}

/// Reads a quoted string's inside starting at byte `i`, just after the
/// opening quote.
fn parse_qinner_at(s: &Vec<u8>, i: usize) -> (r: Option<(Vec<u8>, usize)>)
    requires
        i <= s@.len(),
    ensures
        match r {
            Some(p) => spec_parse_qinner(s@.skip(i as int)) == Some((p.0@, p.1 as int)) && 1 <= p.1
                && i + p.1 <= s@.len(),
            None => spec_parse_qinner(s@.skip(i as int)) is None,
        },
    decreases s@.len() - i,
{
    let ghost t = s@.skip(i as int);
    if i >= s.len() {
        proof {
            assert(t.len() == 0);
        }
        return None;
    }
    let b = s[i];
    proof {
        assert(t[0] == b);
    }
    if b == QUOTE {
        let v: Vec<u8> = Vec::new();
        proof {
            assert(spec_parse_qinner(t) == Some((Seq::<u8>::empty(), 1int)));
            assert(v@ =~= Seq::<u8>::empty());
        }
        return Some((v, 1));
    }
    if b == BSLASH {
        if i + 1 >= s.len() {
            proof {
                assert(t.len() < 2);
            }
            return None;
        }
        let e = s[i + 1];
        proof {
            assert(t[1] == e);
        }
        let c: u8 = if e == QUOTE {
            QUOTE
        } else if e == BSLASH {
            BSLASH
        } else if e == ESC_NL {
            NL
        } else {
            proof {
                assert(unesc_byte(e) is None);
            }
            return None;
        };
        proof {
            assert(unesc_byte(e) == Some(c));
            assert(t.skip(2) =~= s@.skip(i + 2));
        }
        match parse_qinner_at(s, i + 2) {
            None => None,
            Some((u, n)) => {
                let mut v = u;
                let ghost uv = v@;
                v.insert(0, c);
                proof {
                    assert(v@ =~= seq![c] + uv);
                }
                Some((v, n + 2))
            },
        }
    } else if b == NL {
        None
    } else {
        proof {
            assert(t.skip(1) =~= s@.skip(i + 1));
        }
        match parse_qinner_at(s, i + 1) {
            None => None,
            Some((u, n)) => {
                let mut v = u;
                let ghost uv = v@;
                v.insert(0, b);
                proof {
                    assert(v@ =~= seq![b] + uv);
                }
                Some((v, n + 1))
            },
        }
    }
}

/// Reads one manifest line starting at byte `i`.
fn parse_line_at(s: &Vec<u8>, i: usize) -> (r: Option<(crate::manifest::ManifestEntry, usize)>)
    requires
        i <= s@.len(),
    ensures
        match r {
            Some(p) => spec_parse_line(s@.skip(i as int)) == Some((p.0@, p.1 as int)) && 1 <= p.1
                && i + p.1 <= s@.len(),
            None => spec_parse_line(s@.skip(i as int)) is None,
        },
{
    let ghost t = s@.skip(i as int);
    if i >= s.len() || s[i] != QUOTE {
        proof {
            if t.len() >= 1 {
                assert(t[0] == s@[i as int]);
            }
        }
        return None;
    }
    proof {
        assert(t[0] == QUOTE);
        assert(t.skip(1) =~= s@.skip(i + 1));
    }
    match parse_qinner_at(s, i + 1) {
        None => None,
        Some((k, n1)) => {
            let j = i + 1 + n1;
            let ghost rv = t.skip(1 + n1 as int);
            proof {
                assert(rv =~= s@.skip(j as int));
            }
            if s.len() - j < 4 {
                proof {
                    assert(rv.len() < 4);
                }
                return None;
            }
            proof {
                assert(rv[0] == s@[j as int]);
                assert(rv[1] == s@[j + 1]);
                assert(rv[2] == s@[j + 2]);
                assert(rv[3] == s@[j + 3]);
            }
            if !(s[j] == SP && s[j + 1] == EQ && s[j + 2] == SP && s[j + 3] == QUOTE) {
                return None;
            }
            proof {
                assert(rv.skip(4) =~= s@.skip(j + 4));
            }
            match parse_qinner_at(s, j + 4) {
                None => None,
                Some((v, n2)) => {
                    let j2 = j + 4 + n2;
                    let ghost r2 = rv.skip(4 + n2 as int);
                    proof {
                        assert(r2 =~= s@.skip(j2 as int));
                    }
                    if j2 >= s.len() {
                        proof {
                            assert(r2.len() < 1);
                        }
                        return None;
                    }
                    proof {
                        assert(r2[0] == s@[j2 as int]);
                    }
                    if s[j2] != NL {
                        return None;
                    }
                    let entry = crate::manifest::ManifestEntry {
                        src_path: k,
                        config_repo_path: v,
                    };
                    Some((entry, n1 + n2 + 6))
                },
            }
        },
    }
}

/// Reads manifest lines starting at byte `i`, for as long as one starts.
fn parse_entries_at(s: &Vec<u8>, i: usize) -> (r: Option<
    (Vec<crate::manifest::ManifestEntry>, usize),
>)
    requires
        i <= s@.len(),
    ensures
        match r {
            Some(p) => spec_parse_entries(s@.skip(i as int)) == Some(
                (crate::manifest::entry_views(p.0@), p.1 as int),
            ) && i + p.1 <= s@.len(),
            None => spec_parse_entries(s@.skip(i as int)) is None,
        },
    decreases s@.len() - i,
{
    let ghost t = s@.skip(i as int);
    if i >= s.len() || s[i] != QUOTE {
        proof {
            if t.len() >= 1 {
                assert(t[0] == s@[i as int]);
            }
        }
        let v: Vec<crate::manifest::ManifestEntry> = Vec::new();
        proof {
            assert(crate::manifest::entry_views(v@) =~= Seq::<(Seq<u8>, Seq<u8>)>::empty());
        }
        return Some((v, 0));
    }
    proof {
        assert(t[0] == QUOTE);
    }
    match parse_line_at(s, i) {
        None => None,
        Some((e, n)) => {
            proof {
                assert(t.skip(n as int) =~= s@.skip(i + n));
            }
            match parse_entries_at(s, i + n) {
                None => None,
                Some((rest, m)) => {
                    let mut v = rest;
                    let ghost restv = crate::manifest::entry_views(v@);
                    let ghost ev = e@;
                    v.insert(0, e);
                    proof {
                        assert(crate::manifest::entry_views(v@) =~~= seq![ev] + restv);
                    }
                    Some((v, n + m))
                },
            }
        },
    }
}

/// Reads a whole manifest document; `None` on any malformed input.
pub(crate) fn parse_doc(s: &Vec<u8>) -> (r: Option<
    (Vec<crate::manifest::ManifestEntry>, Vec<crate::manifest::ManifestEntry>),
>)
    ensures
        match r {
            Some(p) => spec_parse_doc(s@) == Some(
                (crate::manifest::entry_views(p.0@), crate::manifest::entry_views(p.1@)),
            ),
            None => spec_parse_doc(s@) is None,
        },
{
    if s.len() < 7 {
        proof {
            assert(s@.len() < 7);
        }
        return None;
    }
    proof {
        assert(forall|q: int| 0 <= q < 7 ==> s@.subrange(0, 7)[q] == s@[q]);
    }
    if !(s[0] == 91 && s[1] == 100 && s[2] == 105 && s[3] == 114 && s[4] == 115 && s[5] == 93
        && s[6] == 10) {
        proof {
            assert(s@.subrange(0, 7) != dirs_header()) by {
                if s@.subrange(0, 7) == dirs_header() {
                    assert(s@[0] == 91 && s@[1] == 100 && s@[2] == 105 && s@[3] == 114 && s@[4]
                        == 115 && s@[5] == 93 && s@[6] == 10);
                }
            }
        }
        return None;
    }
    proof {
        assert(s@.subrange(0, 7) =~= dirs_header());
    }
    match parse_entries_at(s, 7) {
        None => None,
        Some((dirs, n)) => {
            let j = 7 + n;
            let ghost rv = s@.skip(7 + n as int);
            proof {
                assert(rv =~= s@.skip(j as int));
            }
            if s.len() - j < 8 {
                proof {
                    assert(rv.len() < 8);
                }
                return None;
            }
            proof {
                assert(forall|q: int| 0 <= q < 8 ==> rv.subrange(0, 8)[q] == s@[j + q]);
            }
            if !(s[j] == 91 && s[j + 1] == 102 && s[j + 2] == 105 && s[j + 3] == 108 && s[j + 4]
                == 101 && s[j + 5] == 115 && s[j + 6] == 93 && s[j + 7] == 10) {
                proof {
                    assert(rv.subrange(0, 8) != files_header()) by {
                        if rv.subrange(0, 8) == files_header() {
                            assert(s@[j as int] == 91 && s@[j + 1] == 102 && s@[j + 2] == 105
                                && s@[j + 3] == 108 && s@[j + 4] == 101 && s@[j + 5] == 115 && s@[j
                                + 6] == 93 && s@[j + 7] == 10);
                        }
                    }
                }
                return None;
            }
            proof {
                assert(rv.subrange(0, 8) =~= files_header());
                assert(rv.skip(8) =~= s@.skip(j + 8));
            }
            match parse_entries_at(s, j + 8) {
                None => None,
                Some((files, m)) => {
                    if m == s.len() - j - 8 {
                        proof {
                            assert(m as int == rv.len() - 8);
                        }
                        Some((dirs, files))
                    } else {
                        proof {
                            assert(m as int != rv.len() - 8);
                        }
                        None
                    }
                },
            }
        },
    }
}

/// Saving a manifest and loading it back restores it exactly: the saved
/// bytes parse to the saved entry lists, and rebinding a sorted list into
/// an empty manifest gives that list back.
pub proof fn lemma_save_load_identity(
    dirs: Seq<(Seq<u8>, Seq<u8>)>,
    files: Seq<(Seq<u8>, Seq<u8>)>,
)
    requires
        crate::manifest::sorted_entries(dirs),
        crate::manifest::sorted_entries(files),
    ensures
        spec_parse_doc(doc_of(dirs, files)) == Some((dirs, files)),
        crate::manifest::insert_all(Seq::<(Seq<u8>, Seq<u8>)>::empty(), dirs) == dirs,
        crate::manifest::insert_all(Seq::<(Seq<u8>, Seq<u8>)>::empty(), files) == files,
{
    lemma_doc_round_trip(dirs, files);
    crate::manifest::lemma_insert_all_identity(dirs);
    crate::manifest::lemma_insert_all_identity(files);
}

} // verus!
