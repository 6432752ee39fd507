use vstd::prelude::*;

verus! {

/// ASCII white space: space, tab, line feed, vertical tab, form feed, return.
pub open spec fn is_space(b: u8) -> bool {
    b == 32 || (9 <= b && b <= 13)
}

/// The words of `s`: its maximal runs of bytes that are not white space,
/// in order.
pub open spec fn words(s: Seq<u8>) -> Seq<Seq<u8>>
    decreases s.len(),
{
    if s.len() == 0 {
        Seq::empty()
    } else {
        let p = s.drop_last();
        let ws = words(p);
        let b = s.last();
        if is_space(b) {
            ws
        } else if p.len() > 0 && !is_space(p.last()) && ws.len() > 0 {
            ws.update(ws.len() - 1, ws.last().push(b))
        } else {
            ws.push(seq![b])
        }
    }
}

fn is_space_byte(b: u8) -> (r: bool)
    ensures
        r == is_space(b),
{
    b == 32 || (9 <= b && b <= 13)
}

/// Splits a line into its words.
pub fn split_words(line: &[u8]) -> (r: Vec<Vec<u8>>)
    ensures
        r@.len() == words(line@).len(),
        forall|i: int| 0 <= i < r@.len() ==> (#[trigger] r@[i])@ == words(line@)[i],
{
    let mut out: Vec<Vec<u8>> = Vec::new();
    let mut cur: Vec<u8> = Vec::new();
    let mut i: usize = 0;
    while i < line.len()
        invariant
            0 <= i <= line@.len(),
            ({
                let ws = words(line@.subrange(0, i as int));
                if cur@.len() == 0 {
                    &&& out@.len() == ws.len()
                    &&& forall|j: int| 0 <= j < out@.len() ==> (#[trigger] out@[j])@ == ws[j]
                } else {
                    &&& out@.len() + 1 == ws.len()
                    &&& forall|j: int| 0 <= j < out@.len() ==> (#[trigger] out@[j])@ == ws[j]
                    &&& cur@ == ws.last()
                }
            }),
            cur@.len() > 0 <==> (i > 0 && !is_space(line@[i - 1])),
        decreases line@.len() - i,
    {
        let b = line[i];
        let ghost p = line@.subrange(0, i as int);
        let ghost s = line@.subrange(0, i + 1);
        assert(s.drop_last() =~= p);
        assert(s.last() == b);
        if is_space_byte(b) {
            if cur.len() > 0 {
                let mut done: Vec<u8> = Vec::new();
                std::mem::swap(&mut done, &mut cur);
                out.push(done);
            }
        } else {
            if cur.len() == 0 {
                assert(p.len() == 0 || is_space(p.last()));
            } else {
                assert(p.last() == line@[i - 1]);
            }
            cur.push(b);
        }
        i = i + 1;
    }
    if cur.len() > 0 {
        out.push(cur);
    }
    assert(line@.subrange(0, line@.len() as int) =~= line@);
    out
}

/// What a line of a scene file describes, by its first byte.
#[derive(Debug, PartialEq, Eq, Structural, Clone, Copy)]
pub enum LineKind {
    /// `o`: a new object starts; its faces count vertices from its own list.
    Object,
    /// `v`: a vertex position.
    Vertex,
    /// `f`: a triangle given by three one-based vertex numbers.
    Face,
    /// Anything else, an empty line included: not read.
    Other,
}

pub open spec fn kind_of(line: Seq<u8>) -> LineKind {
    if line.len() == 0 {
        LineKind::Other
    } else if line[0] == 111 {
        LineKind::Object
    } else if line[0] == 118 {
        LineKind::Vertex
    } else if line[0] == 102 {
        LineKind::Face
    } else {
        LineKind::Other
    }
}

/// Classifies a line by its first byte.
pub fn line_kind(line: &[u8]) -> (r: LineKind)
    ensures
        r == kind_of(line@),
{
    if line.len() == 0 {
        LineKind::Other
    } else if line[0] == 111 {
        LineKind::Object
    } else if line[0] == 118 {
        LineKind::Vertex
    } else if line[0] == 102 {
        LineKind::Face
    } else {
        LineKind::Other
    }
}

/// The three words that follow a vertex line's tag, which hold its
/// coordinates, or `None` when the line has fewer than four words. Words
/// after the fourth are not read.
pub fn vertex_fields(line: &[u8]) -> (r: Option<Vec<Vec<u8>>>)
    ensures
        words(line@).len() < 4 <==> r is None,
        r is Some ==> r->Some_0@.len() == 3 && forall|i: int|
            0 <= i < 3 ==> (#[trigger] r->Some_0@[i])@ == words(line@)[i + 1],
{
    let mut ws = split_words(line);
    if ws.len() < 4 {
        return None;
    }
    let ghost all = ws@;
    let mut out: Vec<Vec<u8>> = Vec::new();
    let mut k: usize = 1;
    while k < 4
        invariant
            1 <= k <= 4,
            ws@.len() >= 4,
            ws@.len() == all.len(),
            all.len() == words(line@).len(),
            forall|i: int| k <= i < ws@.len() ==> ws@[i] == all[i],
            forall|i: int| 0 <= i < all.len() ==> (#[trigger] all[i])@ == words(line@)[i],
            out@.len() == k - 1,
            forall|i: int| 0 <= i < out@.len() ==> (#[trigger] out@[i])@ == words(line@)[i + 1],
        decreases 4 - k,
    {
        let mut word: Vec<u8> = Vec::new();
        std::mem::swap(&mut word, &mut ws[k]);
        assert(word == all[k as int]);
        assert(word@ == words(line@)[k as int]);
        out.push(word);
        k = k + 1;
    }
    Some(out)
}

/// Why a face line does not name three vertices.
#[derive(Debug, PartialEq, Eq, Structural, Clone, Copy)]
pub enum FaceError {
    /// The line has fewer than three words after its tag.
    MissingIndex,
    /// A vertex number is not a run of decimal digits.
    NotANumber,
    /// A vertex number is zero or larger than the number of vertices read.
    OutOfRange,
}

pub open spec fn is_digit(b: u8) -> bool {
    48 <= b && b <= 57
}

/// The value of a run of decimal digits.
pub open spec fn number(w: Seq<u8>) -> nat
    decreases w.len(),
{
    if w.len() == 0 {
        0
    } else {
        number(w.drop_last()) * 10 + (w.last() - 48) as nat
    }
}

/// The zero-based vertex that word `w` names among `count` vertices.
pub open spec fn vertex_ref(w: Seq<u8>, count: nat) -> Result<usize, FaceError> {
    if w.len() == 0 || !(forall|i: int| 0 <= i < w.len() ==> is_digit(#[trigger] w[i])) {
        Err(FaceError::NotANumber)
    } else if number(w) == 0 || number(w) > count {
        Err(FaceError::OutOfRange)
    } else {
        Ok((number(w) - 1) as usize)
    }
}

/// The three zero-based vertices that a face line names, or the error of
/// the first word that does not name one.
pub open spec fn face_refs(line: Seq<u8>, count: nat) -> Result<(usize, usize, usize), FaceError> {
    let ws = words(line);
    if ws.len() < 4 {
        Err(FaceError::MissingIndex)
    } else {
        match vertex_ref(ws[1], count) {
            Err(e) => Err(e),
            Ok(a) => match vertex_ref(ws[2], count) {
                Err(e) => Err(e),
                Ok(b) => match vertex_ref(ws[3], count) {
                    Err(e) => Err(e),
                    Ok(c) => Ok((a, b, c)),
                },
            },
        }
    }
}

/// Reads one one-based vertex number and checks it against the number of
/// vertices read so far.
fn parse_vertex_ref(w: &Vec<u8>, count: usize) -> (r: Result<usize, FaceError>)
    ensures
        r == vertex_ref(w@, count as nat),
{
    if w.len() == 0 {
        return Err(FaceError::NotANumber);
    }
    let mut acc: u128 = 0;
    let mut big = false;
    let mut i: usize = 0;
    while i < w.len()
        invariant
            0 <= i <= w@.len(),
            forall|j: int| 0 <= j < i ==> is_digit(#[trigger] w@[j]),
            big ==> number(w@.subrange(0, i as int)) > count,
            !big ==> acc == number(w@.subrange(0, i as int)) && acc <= count,
        decreases w@.len() - i,
    {
        let b = w[i];
        if !(48 <= b && b <= 57) {
            assert(!(forall|j: int| 0 <= j < w@.len() ==> is_digit(#[trigger] w@[j])));
            return Err(FaceError::NotANumber);
        }
        let ghost p = w@.subrange(0, i as int);
        let ghost s = w@.subrange(0, i + 1);
        assert(s.drop_last() =~= p);
        assert(number(s) == number(p) * 10 + (b - 48) as nat);
        if !big {
            acc = acc * 10 + (b - 48) as u128;
            if acc > count as u128 {
                big = true;
            }
        }
        i = i + 1;
    }
    assert(w@.subrange(0, w@.len() as int) =~= w@);
    if big || acc == 0 {
        Err(FaceError::OutOfRange)
    } else {
        Ok((acc - 1) as usize)
    }
}

/// Reads the three vertices of a face line: the three words after the tag
/// are one-based numbers into the `count` vertices read so far; they come
/// back zero-based. Words after the fourth are not read.
pub fn parse_face(line: &[u8], count: usize) -> (r: Result<(usize, usize, usize), FaceError>)
    ensures
        r == face_refs(line@, count as nat),
{
    let ws = split_words(line);
    if ws.len() < 4 {
        return Err(FaceError::MissingIndex);
    }
    let a = match parse_vertex_ref(&ws[1], count) {
        Ok(a) => a,
        Err(e) => {
            return Err(e);
        },
    };
    let b = match parse_vertex_ref(&ws[2], count) {
        Ok(b) => b,
        Err(e) => {
            return Err(e);
        },
    };
    let c = match parse_vertex_ref(&ws[3], count) {
        Ok(c) => c,
        Err(e) => {
            return Err(e);
        },
    };
    Ok((a, b, c))
}

} // verus!
