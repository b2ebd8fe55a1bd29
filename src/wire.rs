//! Text form of the combined mesh's face lines, and the output sink that
//! workers append whole formatted buffers to.
//!
//! A face line is `f`, then for each corner a space and
//! `<position>/<texture>/<normal>`, where an absent index leaves its place
//! empty but keeps the slashes, then a newline.

use crate::faces::IndexTuple;
use vstd::prelude::*;

verus! {

/// Decimal digits of `n`, most significant first, in ASCII.
pub open spec fn decimal(n: nat) -> Seq<u8>
    decreases n,
{
    if n < 10 {
        seq![(48 + n) as u8]
    } else {
        decimal(n / 10).push((48 + n % 10) as u8)
    }
}

/// Decimal digits of the index, or nothing where it is absent.
pub open spec fn optional_decimal(v: Option<usize>) -> Seq<u8> {
    match v {
        Some(i) => decimal(i as nat),
        None => Seq::empty(),
    }
}

/// Text of one corner of a face line, with its leading space.
pub open spec fn corner_text(t: IndexTuple) -> Seq<u8> {
    seq![32u8] + decimal(t.0 as nat) + seq![47u8] + optional_decimal(t.1) + seq![47u8]
        + optional_decimal(t.2)
}

/// Text of the corners of a face, in order.
pub open spec fn corners_text(face: Seq<IndexTuple>) -> Seq<u8>
    decreases face.len(),
{
    if face.len() == 0 {
        Seq::empty()
    } else {
        corners_text(face.drop_last()) + corner_text(face.last())
    }
}

/// One face line, newline included.
pub open spec fn face_line_text(face: Seq<IndexTuple>) -> Seq<u8> {
    seq![102u8] + corners_text(face) + seq![10u8]
}

/// The buffers, one after another.
pub open spec fn joined(bufs: Seq<Seq<u8>>) -> Seq<u8>
    decreases bufs.len(),
{
    if bufs.len() == 0 {
        Seq::empty()
    } else {
        joined(bufs.drop_last()) + bufs.last()
    }
}

/// The lines of `faces`, one after another.
pub open spec fn face_lines_text(faces: Seq<Seq<IndexTuple>>) -> Seq<u8> {
    joined(faces.map_values(|f: Seq<IndexTuple>| face_line_text(f)))
}

/// `s` is made of whole lines: it is empty or ends with a newline.
pub open spec fn whole_lines(s: Seq<u8>) -> bool {
    s.len() == 0 || s.last() == 10u8
}

/// Appends the decimal digits of `n` to `out`.
pub fn push_decimal(out: &mut Vec<u8>, n: usize)
    ensures
        final(out)@ == old(out)@ + decimal(n as nat),
    decreases n,
{
    if n < 10 {
        out.push((48 + n) as u8);
    } else {
        push_decimal(out, n / 10);
        out.push((48 + n % 10) as u8);
        proof {
            assert(final(out)@ =~= old(out)@ + decimal(n as nat));
        }
    }
}

fn push_optional_decimal(out: &mut Vec<u8>, v: Option<usize>)
    ensures
        final(out)@ == old(out)@ + optional_decimal(v),
{
    match v {
        Some(i) => push_decimal(out, i),
        None => {
            assert(final(out)@ =~= old(out)@ + optional_decimal(v));
        },
    }
}

/// Appends the text of one corner, with its leading space, to `out`.
fn push_corner(out: &mut Vec<u8>, t: IndexTuple)
    ensures
        final(out)@ == old(out)@ + corner_text(t),
{
    out.push(32u8);
    push_decimal(out, t.0);
    out.push(47u8);
    push_optional_decimal(out, t.1);
    out.push(47u8);
    push_optional_decimal(out, t.2);
    assert(final(out)@ =~= old(out)@ + corner_text(t));
}

/// Appends one face line to `out`.
pub fn push_face_line(out: &mut Vec<u8>, face: &Vec<IndexTuple>)
    ensures
        final(out)@ == old(out)@ + face_line_text(face@),
{
    let ghost start = out@;
    out.push(102u8);
    let mut m: usize = 0;
    while m < face.len()
        invariant
            m <= face.len(),
            out@ == start + seq![102u8] + corners_text(face@.subrange(0, m as int)),
        decreases face.len() - m,
    {
        push_corner(out, face[m]);
        proof {
            let next = face@.subrange(0, m + 1);
            assert(next.drop_last() =~= face@.subrange(0, m as int));
            assert(out@ =~= start + seq![102u8] + corners_text(next));
        }
        m = m + 1;
    }
    out.push(10u8);
    assert(face@.subrange(0, m as int) =~= face@);
    assert(out@ =~= start + face_line_text(face@));
}

/// The face lines of `faces`, in order, as one buffer.
pub fn face_lines(faces: &Vec<Vec<IndexTuple>>) -> (r: Vec<u8>)
    ensures
        r@ == face_lines_text(faces@.map_values(|f: Vec<IndexTuple>| f@)),
        whole_lines(r@),
{
    let ghost all = faces@.map_values(|f: Vec<IndexTuple>| f@);
    let mut r: Vec<u8> = Vec::new();
    let mut j: usize = 0;
    while j < faces.len()
        invariant
            j <= faces.len(),
            all == faces@.map_values(|f: Vec<IndexTuple>| f@),
            r@ == face_lines_text(all.subrange(0, j as int)),
            whole_lines(r@),
        decreases faces.len() - j,
    {
        push_face_line(&mut r, &faces[j]);
        proof {
            let next = all.subrange(0, j + 1);
            let lines = next.map_values(|f: Seq<IndexTuple>| face_line_text(f));
            assert(lines.drop_last() =~= all.subrange(0, j as int).map_values(
                |f: Seq<IndexTuple>| face_line_text(f),
            ));
            assert(r@ == face_lines_text(next));
        }
        j = j + 1;
    }
    assert(all.subrange(0, j as int) =~= all);
    r
}

/// Appends a whole formatted buffer to the sink.
pub fn append_block(sink: &mut Vec<u8>, block: &Vec<u8>)
    ensures
        final(sink)@ == old(sink)@ + block@,
{
    let mut m: usize = 0;
    let ghost start = sink@;
    while m < block.len()
        invariant
            m <= block.len(),
            sink@ == start + block@.subrange(0, m as int),
        decreases block.len() - m,
    {
        sink.push(block[m]);
        assert(block@.subrange(0, m + 1) =~= block@.subrange(0, m as int).push(block[m as int]));
        m = m + 1;
    }
    assert(block@.subrange(0, m as int) =~= block@);
}

/// Position `p` of `s` begins a line.
pub open spec fn starts_line(s: Seq<u8>, p: int) -> bool {
    p == 0 || s[p - 1] == 10u8
}

/// Whatever the number of workers, the sizes of their buffers and the order
/// in which they take the sink's lock, a sink that receives buffers of whole
/// lines, each appended in one piece, holds every buffer unbroken, starting
/// at the beginning of a line, and ends with a whole line: no line mixes the
/// text of two buffers. `bufs` lists the buffers in the order they were
/// appended.
pub proof fn lemma_whole_appends(bufs: Seq<Seq<u8>>)
    requires
        forall|i: int| 0 <= i < bufs.len() ==> whole_lines(#[trigger] bufs[i]),
    ensures
        whole_lines(joined(bufs)),
        forall|j: int|
            0 <= j < bufs.len() ==> {
                let p = joined(#[trigger] bufs.take(j)).len() as int;
                &&& p + bufs[j].len() <= joined(bufs).len()
                &&& starts_line(joined(bufs), p)
                &&& joined(bufs).subrange(p, p + bufs[j].len()) == bufs[j]
            },
    decreases bufs.len(),
{
    if bufs.len() > 0 {
        let init = bufs.drop_last();
        let last = bufs.last();
        lemma_whole_appends(init);
        assert(joined(bufs) == joined(init) + last);
        assert forall|j: int| 0 <= j < bufs.len() implies {
            let p = joined(#[trigger] bufs.take(j)).len() as int;
            &&& p + bufs[j].len() <= joined(bufs).len()
            &&& starts_line(joined(bufs), p)
            &&& joined(bufs).subrange(p, p + bufs[j].len()) == bufs[j]
        } by {
            let p = joined(bufs.take(j)).len() as int;
            if j == bufs.len() - 1 {
                assert(bufs.take(j) =~= init);
                assert(joined(bufs).subrange(p, p + bufs[j].len()) =~= last);
            } else {
                assert(bufs.take(j) =~= init.take(j));
                assert(init[j] == bufs[j]);
                let q = p + bufs[j].len();
                assert(q <= joined(init).len());
                assert(starts_line(joined(init), p));
                assert(joined(init).subrange(p, q) == bufs[j]);
                assert(joined(bufs).subrange(p, q) =~= joined(init).subrange(p, q));
            }
        }
    }
}

} // verus!
