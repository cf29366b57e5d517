//! Keys of the store are slash-separated paths. This module gives the
//! segmentation of a key into path segments, the join that undoes it, and the
//! lexicographic order used to keep children and mappings deterministic.

use vstd::prelude::*;

verus! {

/// A segment never contains the separator.
pub open spec fn slash_free(seg: Seq<char>) -> bool {
    forall|i: int| 0 <= i < seg.len() ==> seg[i] != '/'
}

/// A segment sequence that can stand for a key: at least one segment, each
/// free of the separator.
pub open spec fn wf_path(segs: Seq<Seq<char>>) -> bool {
    &&& segs.len() >= 1
    &&& forall|i: int| 0 <= i < segs.len() ==> slash_free(#[trigger] segs[i])
}

/// No segment of the sequence is empty.
pub open spec fn nonempty_segs(segs: Seq<Seq<char>>) -> bool {
    forall|i: int| 0 <= i < segs.len() ==> #[trigger] segs[i].len() > 0
}

/// The key that a segment sequence denotes: the segments joined with `/`.
pub open spec fn join_path(segs: Seq<Seq<char>>) -> Seq<char>
    decreases segs.len(),
{
    if segs.len() == 0 {
        Seq::empty()
    } else if segs.len() == 1 {
        segs[0]
    } else {
        segs[0] + seq!['/'] + join_path(segs.drop_first())
    }
}

/// The canonical segmentation of a key: the well-formed segment sequence that
/// joins to it. `lemma_join_injective` shows there is at most one.
pub open spec fn path_of(k: Seq<char>) -> Seq<Seq<char>> {
    choose|segs: Seq<Seq<char>>| wf_path(segs) && join_path(segs) == k
}

/// A key is well formed when splitting it yields no empty segment: it is
/// non-empty and has no leading, trailing or doubled separator.
pub open spec fn valid_key(k: Seq<char>) -> bool {
    exists|segs: Seq<Seq<char>>|
        wf_path(segs) && join_path(segs) == k && nonempty_segs(segs)
}

/// Joining is injective on well-formed segment sequences: a key splits one
/// way only.
pub proof fn lemma_join_injective(a: Seq<Seq<char>>, b: Seq<Seq<char>>)
    requires
        wf_path(a),
        wf_path(b),
        join_path(a) == join_path(b),
    ensures
        a == b,
    decreases a.len(),
{
    let ja = join_path(a);
    let jb = join_path(b);
    if a.len() == 1 && b.len() == 1 {
        assert(a =~= b);
    } else if a.len() == 1 && b.len() > 1 {
        // join of b carries a separator where a's single segment cannot.
        let lb = b[0].len() as int;
        assert(jb == b[0] + seq!['/'] + join_path(b.drop_first()));
        assert(jb[lb] == '/');
        assert(ja[lb] != '/');
        assert(false);
    } else if a.len() > 1 && b.len() == 1 {
        let la = a[0].len() as int;
        assert(ja == a[0] + seq!['/'] + join_path(a.drop_first()));
        assert(ja[la] == '/');
        assert(jb[la] != '/');
        assert(false);
    } else {
        let la = a[0].len() as int;
        let lb = b[0].len() as int;
        assert(ja == a[0] + seq!['/'] + join_path(a.drop_first()));
        assert(jb == b[0] + seq!['/'] + join_path(b.drop_first()));
        assert(ja[la] == '/');
        assert(jb[lb] == '/');
        if la < lb {
            assert(jb[la] == b[0][la]);
            assert(false);
        }
        if lb < la {
            assert(ja[lb] == a[0][lb]);
            assert(false);
        }
        assert(a[0].len() == b[0].len());
        assert forall|i: int| 0 <= i < la implies a[0][i] == b[0][i] by {
            assert(ja[i] == a[0][i]);
            assert(jb[i] == b[0][i]);
        }
        assert(a[0] =~= b[0]);
        assert(join_path(a.drop_first()) =~= ja.subrange(la + 1, ja.len() as int));
        assert(join_path(b.drop_first()) =~= jb.subrange(lb + 1, jb.len() as int));
        lemma_join_injective(a.drop_first(), b.drop_first());
        assert(a =~= b) by {
            assert(forall|i: int|
                1 <= i < a.len() ==> a[i] == a.drop_first()[i - 1] && b[i] == b.drop_first()[i
                    - 1]);
        }
    }
}

/// The canonical segmentation of a joined well-formed sequence is that
/// sequence itself.
pub proof fn lemma_path_of_join(segs: Seq<Seq<char>>)
    requires
        wf_path(segs),
    ensures
        path_of(join_path(segs)) == segs,
{
    let k = join_path(segs);
    assert(wf_path(segs) && join_path(segs) == k);
    let w = path_of(k);
    assert(wf_path(w) && join_path(w) == k);
    lemma_join_injective(w, segs);
}

/// Appending one segment extends the join by a separator and that segment.
pub proof fn lemma_join_push(segs: Seq<Seq<char>>, seg: Seq<char>)
    ensures
        join_path(segs.push(seg)) == if segs.len() == 0 {
            seg
        } else {
            join_path(segs) + seq!['/'] + seg
        },
    decreases segs.len(),
{
    let p = segs.push(seg);
    if segs.len() == 0 {
        assert(p.len() == 1);
        assert(p[0] == seg);
    } else {
        assert(p.len() >= 2);
        assert(p[0] == segs[0]);
        assert(p.drop_first() =~= segs.drop_first().push(seg));
        lemma_join_push(segs.drop_first(), seg);
        if segs.len() == 1 {
            assert(segs.drop_first().len() == 0);
            assert(join_path(p) == segs[0] + seq!['/'] + seg);
            assert(join_path(segs) == segs[0]);
        } else {
            assert(join_path(p) == segs[0] + seq!['/'] + (join_path(segs.drop_first())
                + seq!['/'] + seg));
            assert(join_path(segs) == segs[0] + seq!['/'] + join_path(segs.drop_first()));
            assert(join_path(p) =~= join_path(segs) + seq!['/'] + seg);
        }
    }
}

/// Splits a key into its path segments: the unique segment sequence, free of
/// separators, that joins back to the key.
pub fn split_key(k: &str) -> (segs: Vec<String>)
    ensures
        wf_path(segs.deep_view()),
        join_path(segs.deep_view()) == k@,
        segs.deep_view() == path_of(k@),
{
    let n = k.unicode_len();
    let mut segs: Vec<String> = Vec::new();
    let mut cur: String = String::new();
    let mut i: usize = 0;
    while i < n
        invariant
            i <= n,
            n == k@.len(),
            slash_free(cur@),
            forall|j: int| 0 <= j < segs.deep_view().len() ==> slash_free(
                #[trigger] segs.deep_view()[j],
            ),
            join_path(segs.deep_view().push(cur@)) == k@.subrange(0, i as int),
        decreases n - i,
    {
        let c = k.get_char(i);
        let ghost dv = segs.deep_view();
        let ghost cv = cur@;
        if c == '/' {
            segs.push(cur);
            cur = String::new();
            proof {
                assert(segs.deep_view() =~= dv.push(cv));
                lemma_join_push(dv.push(cv), Seq::<char>::empty());
                assert(join_path(dv.push(cv).push(Seq::<char>::empty())) == join_path(
                    dv.push(cv),
                ) + seq!['/'] + Seq::<char>::empty());
                assert(k@.subrange(0, i as int) + seq!['/'] + Seq::<char>::empty()
                    =~= k@.subrange(0, i + 1));
            }
        } else {
            push_char(&mut cur, c);
            proof {
                lemma_join_push(dv, cv.push(c));
                lemma_join_push(dv, cv);
                if dv.len() == 0 {
                    assert(join_path(dv.push(cv.push(c))) == cv.push(c));
                    assert(k@.subrange(0, i as int).push(c) =~= k@.subrange(0, i + 1));
                } else {
                    assert(join_path(dv) + seq!['/'] + cv.push(c) =~= (join_path(dv)
                        + seq!['/'] + cv).push(c));
                    assert(k@.subrange(0, i as int).push(c) =~= k@.subrange(0, i + 1));
                }
            }
        }
        i = i + 1;
    }
    let ghost dv = segs.deep_view();
    let ghost cv = cur@;
    segs.push(cur);
    proof {
        assert(segs.deep_view() =~= dv.push(cv));
        assert(k@.subrange(0, n as int) =~= k@);
        lemma_path_of_join(segs.deep_view());
    }
    segs
}

/// Relies on String::push: appends the given character at the end.
#[verifier::external_body]
pub(crate) fn push_char(s: &mut String, c: char)
    ensures
        final(s)@ == old(s)@.push(c),
{
    s.push(c);
}

/// A key is valid exactly when every segment the split yields is non-empty.
pub fn check_key(k: &str) -> (ok: bool)
    ensures
        ok == valid_key(k@),
{
    let segs = split_key(k);
    let mut i: usize = 0;
    let n = segs.len();
    while i < n
        invariant
            i <= n,
            n == segs.deep_view().len(),
            wf_path(segs.deep_view()),
            join_path(segs.deep_view()) == k@,
            forall|j: int| 0 <= j < i ==> #[trigger] segs.deep_view()[j].len() > 0,
        decreases n - i,
    {
        if segs[i].as_str().unicode_len() == 0 {
            proof {
                assert(!valid_key(k@)) by {
                    if valid_key(k@) {
                        let w = choose|w: Seq<Seq<char>>|
                            wf_path(w) && join_path(w) == k@ && nonempty_segs(w);
                        lemma_join_injective(w, segs.deep_view());
                        assert(w[i as int].len() > 0);
                        assert(false);
                    }
                }
            }
            return false;
        }
        i = i + 1;
    }
    proof {
        assert(nonempty_segs(segs.deep_view()));
    }
    true
}

/// Strict lexicographic order on character sequences, by scalar value.
pub open spec fn lex_lt(a: Seq<char>, b: Seq<char>) -> bool
    decreases a.len(),
{
    if b.len() == 0 {
        false
    } else if a.len() == 0 {
        true
    } else if (a[0] as u32) < (b[0] as u32) {
        true
    } else if a[0] == b[0] {
        lex_lt(a.drop_first(), b.drop_first())
    } else {
        false
    }
}

/// The lexicographic order is transitive.
pub proof fn lemma_lex_lt_trans(a: Seq<char>, b: Seq<char>, c: Seq<char>)
    requires
        lex_lt(a, b),
        lex_lt(b, c),
    ensures
        lex_lt(a, c),
    decreases a.len(),
{
    if a.len() > 0 && b.len() > 0 && c.len() > 0 {
        if a[0] == b[0] && b[0] == c[0] {
            lemma_lex_lt_trans(a.drop_first(), b.drop_first(), c.drop_first());
        }
    }
}

/// The lexicographic order is total: two sequences compare or are equal.
pub proof fn lemma_lex_lt_total(a: Seq<char>, b: Seq<char>)
    ensures
        lex_lt(a, b) || lex_lt(b, a) || a == b,
    decreases a.len(),
{
    if a.len() == 0 && b.len() == 0 {
        assert(a =~= b);
    }
    if a.len() > 0 && b.len() > 0 && a[0] != b[0] {
        vstd::utf8::char_u32_cast(a[0], a[0] as u32);
        vstd::utf8::char_u32_cast(b[0], b[0] as u32);
        assert((a[0] as u32) < (b[0] as u32) || (b[0] as u32) < (a[0] as u32));
    }
    if a.len() > 0 && b.len() > 0 && a[0] == b[0] {
        lemma_lex_lt_total(a.drop_first(), b.drop_first());
        if a.drop_first() == b.drop_first() {
            assert(a.len() == b.len()) by {
                assert(a.drop_first().len() == b.drop_first().len());
            }
            assert forall|i: int| 0 <= i < a.len() implies a[i] == b[i] by {
                if i > 0 {
                    assert(a[i] == a.drop_first()[i - 1]);
                    assert(b[i] == b.drop_first()[i - 1]);
                }
            }
            assert(a =~= b);
        }
    }
}

/// The lexicographic order is irreflexive.
pub proof fn lemma_lex_lt_irrefl(a: Seq<char>)
    ensures
        !lex_lt(a, a),
    decreases a.len(),
{
    if a.len() > 0 {
        lemma_lex_lt_irrefl(a.drop_first());
    }
}

/// Chopping an equal prefix off both sides leaves the order unchanged.
pub proof fn lemma_lex_lt_skip(a: Seq<char>, b: Seq<char>, i: int)
    requires
        0 <= i <= a.len(),
        i <= b.len(),
        forall|j: int| 0 <= j < i ==> a[j] == b[j],
    ensures
        lex_lt(a, b) == lex_lt(a.skip(i), b.skip(i)),
    decreases i,
{
    if i == 0 {
        assert(a.skip(0) =~= a);
        assert(b.skip(0) =~= b);
    } else {
        assert(a.len() > 0 && b.len() > 0 && a[0] == b[0]);
        assert(a.drop_first().skip(i - 1) =~= a.skip(i));
        assert(b.drop_first().skip(i - 1) =~= b.skip(i));
        lemma_lex_lt_skip(a.drop_first(), b.drop_first(), i - 1);
    }
}

/// Decides the lexicographic order on two strings.
pub fn str_lt(a: &str, b: &str) -> (r: bool)
    ensures
        r == lex_lt(a@, b@),
{
    let la = a.unicode_len();
    let lb = b.unicode_len();
    let mut i: usize = 0;
    while i < la && i < lb
        invariant
            i <= la,
            i <= lb,
            la == a@.len(),
            lb == b@.len(),
            forall|j: int| 0 <= j < i ==> a@[j] == b@[j],
        decreases la - i,
    {
        let ca = a.get_char(i);
        let cb = b.get_char(i);
        if (ca as u32) < (cb as u32) {
            proof {
                lemma_lex_lt_skip(a@, b@, i as int);
                assert(a@.skip(i as int)[0] == ca);
                assert(b@.skip(i as int)[0] == cb);
            }
            return true;
        }
        if (cb as u32) < (ca as u32) {
            proof {
                lemma_lex_lt_skip(a@, b@, i as int);
                assert(a@.skip(i as int)[0] == ca);
                assert(b@.skip(i as int)[0] == cb);
            }
            return false;
        }
        proof {
            assert(ca == cb) by {
                assert((ca as u32) == (cb as u32));
            }
        }
        i = i + 1;
    }
    proof {
        lemma_lex_lt_skip(a@, b@, i as int);
        if i == la {
            assert(a@.skip(i as int).len() == 0);
        } else {
            assert(b@.skip(i as int).len() == 0);
        }
    }
    la < lb
}

} // verus!
