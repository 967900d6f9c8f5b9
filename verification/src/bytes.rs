//! Byte-level ground model of the header text format: character classes,
//! splitting a byte sequence at a separator, joining segments with a
//! separator, and discarding empty segments.  The executable functions are
//! proved against the recursive specification functions, which the rest of
//! the crate uses to state its contracts.

use vstd::prelude::*;

verus! {

/// `b` is an uppercase ASCII letter.
pub open spec fn is_uppercase_letter(b: u8) -> bool {
    65 <= b && b <= 90
}

/// `b` is an ASCII letter, either case.
pub open spec fn is_letter(b: u8) -> bool {
    is_uppercase_letter(b) || (97 <= b && b <= 122)
}

/// `b` is an ASCII letter or a decimal digit.
pub open spec fn is_letter_or_digit(b: u8) -> bool {
    is_letter(b) || (48 <= b && b <= 57)
}

/// `b` is printable, non-control ASCII (space through tilde).
pub open spec fn is_printable(b: u8) -> bool {
    32 <= b && b <= 126
}

/// The sequence of views of a sequence of byte vectors.
pub open spec fn views_of(segs: Seq<Vec<u8>>) -> Seq<Seq<u8>> {
    Seq::new(segs.len(), |i: int| segs[i]@)
}

/// Splitting `s` at every occurrence of `sep`.  The result always has at
/// least one segment; `n` separators yield `n + 1` segments, some possibly
/// empty.
pub open spec fn split_bytes(s: Seq<u8>, sep: u8) -> Seq<Seq<u8>>
    decreases s.len(),
{
    if s.len() == 0 {
        seq![Seq::<u8>::empty()]
    } else if s.last() == sep {
        split_bytes(s.drop_last(), sep).push(Seq::<u8>::empty())
    } else {
        let parts = split_bytes(s.drop_last(), sep);
        parts.update(parts.len() - 1, parts.last().push(s.last()))
    }
}

/// Joining `lines` with a single `sep` between adjacent lines, with no
/// leading or trailing separator.
pub open spec fn join_bytes(lines: Seq<Seq<u8>>, sep: u8) -> Seq<u8>
    decreases lines.len(),
{
    if lines.len() == 0 {
        Seq::<u8>::empty()
    } else if lines.len() == 1 {
        lines[0]
    } else {
        join_bytes(lines.drop_last(), sep).push(sep) + lines.last()
    }
}

/// The subsequence of `segs` consisting of its nonempty segments, in order.
pub open spec fn drop_empty(segs: Seq<Seq<u8>>) -> Seq<Seq<u8>>
    decreases segs.len(),
{
    if segs.len() == 0 {
        Seq::<Seq<u8>>::empty()
    } else if segs.last().len() == 0 {
        drop_empty(segs.drop_last())
    } else {
        drop_empty(segs.drop_last()).push(segs.last())
    }
}

/// A split always produces at least one segment.
pub proof fn lemma_split_bytes_nonempty(s: Seq<u8>, sep: u8)
    ensures
        split_bytes(s, sep).len() >= 1,
    decreases s.len(),
{
    if s.len() > 0 {
        lemma_split_bytes_nonempty(s.drop_last(), sep);
    }
}

/// Appends all of `src` to `out`.
pub fn push_all(out: &mut Vec<u8>, src: &[u8])
    ensures
        final(out)@ == old(out)@ + src@,
{
    let mut j: usize = 0;
    while j < src.len()
        invariant
            j <= src.len(),
            out@ == old(out)@ + src@.take(j as int),
        decreases src.len() - j,
    {
        out.push(src[j]);
        proof {
            assert(old(out)@ + src@.take(j as int + 1) =~= (old(out)@ + src@.take(
                j as int,
            )).push(src@[j as int]));
        }
        j = j + 1;
    }
    proof {
        assert(src@.take(src@.len() as int) =~= src@);
    }
}

/// Copies a byte slice into a fresh vector.
pub fn copy_bytes(src: &[u8]) -> (r: Vec<u8>)
    ensures
        r@ == src@,
{
    let mut v: Vec<u8> = Vec::new();
    push_all(&mut v, src);
    proof {
        assert(Seq::<u8>::empty() + src@ =~= src@);
    }
    v
}

/// Splits `s` at `sep` and keeps only the nonempty segments.
pub fn split_nonempty(s: &[u8], sep: u8) -> (r: Vec<Vec<u8>>)
    ensures
        views_of(r@) == drop_empty(split_bytes(s@, sep)),
{
    let mut done: Vec<Vec<u8>> = Vec::new();
    let mut cur: Vec<u8> = Vec::new();
    let mut i: usize = 0;
    proof {
        assert(s@.take(0) =~= Seq::<u8>::empty());
        assert(views_of(done@) =~= Seq::<Seq<u8>>::empty());
    }
    while i < s.len()
        invariant
            i <= s.len(),
            split_bytes(s@.take(i as int), sep).last() == cur@,
            drop_empty(split_bytes(s@.take(i as int), sep).drop_last()) == views_of(done@),
        decreases s.len() - i,
    {
        proof {
            lemma_split_bytes_nonempty(s@.take(i as int), sep);
            assert(s@.take(i as int + 1).drop_last() =~= s@.take(i as int));
            assert(s@.take(i as int + 1).last() == s@[i as int]);
        }
        let ghost parts = split_bytes(s@.take(i as int), sep);
        if s[i] == sep {
            proof {
                assert(split_bytes(s@.take(i as int + 1), sep) == parts.push(
                    Seq::<u8>::empty(),
                ));
                assert(parts.push(Seq::<u8>::empty()).drop_last() =~= parts);
            }
            if cur.len() > 0 {
                let ghost done0 = done@;
                done.push(cur);
                cur = Vec::new();
                proof {
                    assert(views_of(done@) =~= views_of(done0).push(parts.last()));
                }
            } else {
                proof {
                    assert(parts.last() =~= Seq::<u8>::empty());
                }
            }
        } else {
            cur.push(s[i]);
            proof {
                let updated = parts.update(parts.len() - 1, parts.last().push(s@[i as int]));
                assert(split_bytes(s@.take(i as int + 1), sep) == updated);
                assert(updated.drop_last() =~= parts.drop_last());
                assert(updated.last() == cur@);
            }
        }
        i = i + 1;
    }
    proof {
        assert(s@.take(s@.len() as int) =~= s@);
        lemma_split_bytes_nonempty(s@, sep);
    }
    if cur.len() > 0 {
        let ghost done0 = done@;
        let ghost tail = split_bytes(s@, sep).last();
        done.push(cur);
        proof {
            assert(views_of(done@) =~= views_of(done0).push(tail));
        }
    }
    done
}

/// Compares two byte slices for equality.
pub fn bytes_eq(a: &[u8], b: &[u8]) -> (r: bool)
    ensures
        r <==> a@ == b@,
{
    if a.len() != b.len() {
        return false;
    }
    let mut i: usize = 0;
    while i < a.len()
        invariant
            a@.len() == b@.len(),
            i <= a.len(),
            forall|k: int| 0 <= k < i ==> a@[k] == b@[k],
        decreases a.len() - i,
    {
        if a[i] != b[i] {
            return false;
        }
        i = i + 1;
    }
    proof {
        assert(a@ =~= b@);
    }
    true
}

/// Joins the byte vectors in `lines` with `sep`.
pub fn join_all(lines: &Vec<Vec<u8>>, sep: u8) -> (r: Vec<u8>)
    ensures
        r@ == join_bytes(views_of(lines@), sep),
{
    let mut out: Vec<u8> = Vec::new();
    let mut i: usize = 0;
    proof {
        assert(views_of(lines@).take(0) =~= Seq::<Seq<u8>>::empty());
    }
    while i < lines.len()
        invariant
            i <= lines.len(),
            out@ == join_bytes(views_of(lines@).take(i as int), sep),
        decreases lines.len() - i,
    {
        let ghost vs = views_of(lines@);
        if i > 0 {
            out.push(sep);
        }
        push_all(&mut out, lines[i].as_slice());
        proof {
            assert(vs.take(i as int + 1).drop_last() =~= vs.take(i as int));
            assert(vs.take(i as int + 1).last() == lines@[i as int]@);
            if i == 0 {
                assert(join_bytes(vs.take(1), sep) == vs.take(1)[0]);
                assert(Seq::<u8>::empty() + lines@[0]@ =~= lines@[0]@);
            } else {
                assert(join_bytes(vs.take(i as int + 1), sep) == join_bytes(
                    vs.take(i as int),
                    sep,
                ).push(sep) + vs.take(i as int + 1).last());
            }
        }
        i = i + 1;
    }
    proof {
        assert(views_of(lines@).take(lines@.len() as int) =~= views_of(lines@));
    }
    out
}

} // verus!
