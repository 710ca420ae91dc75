//! The shape of a literal: the kind of every node and the lengths that fix
//! where each leaf lies in a flat buffer.

use vstd::prelude::*;
use vstd::slice::{slice_subrange, slice_to_vec};
use crate::codec::{word_len, word_width};
use crate::error::Error;
use crate::literal_bytes::{Delimiter, LiteralBytes, LiteralModel};

verus! {

/// What is kept of a literal once its bytes are masked: kinds and lengths,
/// no content.
#[derive(Debug, PartialEq, Eq)]
pub enum Shape {
    /// UTF-8 text of the given length in bytes.
    Str(usize),
    /// Raw bytes of the given length.
    ByteStr(usize),
    /// A nul-terminated string of the given length, the terminator included.
    CStr(usize),
    /// One byte.
    Byte,
    /// A signed machine word.
    Int,
    /// An IEEE-754 double: eight bytes.
    Float,
    /// A Unicode scalar value: four bytes.
    Char,
    /// A boolean: one byte.
    Bool,
    /// An array or a tuple of the given shapes.
    Sequence { inner: Vec<Shape>, delimiter: Delimiter },
}

/// One cut of a buffer in two: `total` bytes into the first `left` and the
/// `right` that follow.
#[derive(Clone, Copy, Debug, PartialEq, Eq, Structural)]
pub struct Split {
    /// The length of the buffer that is cut.
    pub total: usize,
    /// The length of the first part.
    pub left: usize,
    /// The length of the second part.
    pub right: usize,
}

/// The mathematical content of a [`Shape`].
pub ghost enum ShapeModel {
    Str(nat),
    ByteStr(nat),
    CStr(nat),
    Byte,
    Int,
    Float,
    Char,
    Bool,
    Sequence { inner: Seq<ShapeModel>, delimiter: Delimiter },
}

impl View for Shape {
    type V = ShapeModel;

    open spec fn view(&self) -> ShapeModel
        decreases self,
    {
        match self {
            Shape::Str(n) => ShapeModel::Str(*n as nat),
            Shape::ByteStr(n) => ShapeModel::ByteStr(*n as nat),
            Shape::CStr(n) => ShapeModel::CStr(*n as nat),
            Shape::Byte => ShapeModel::Byte,
            Shape::Int => ShapeModel::Int,
            Shape::Float => ShapeModel::Float,
            Shape::Char => ShapeModel::Char,
            Shape::Bool => ShapeModel::Bool,
            Shape::Sequence { inner, delimiter } => ShapeModel::Sequence {
                inner: Seq::new(
                    inner@.len(),
                    |i: int|
                        if 0 <= i < inner@.len() {
                            inner@[i]@
                        } else {
                            ShapeModel::Byte
                        },
                ),
                delimiter: *delimiter,
            },
        }
    }
}

impl ShapeModel {
    /// The number of bytes that a literal of this shape takes: fixed by the
    /// kind of a leaf or recorded with it, and for a sequence the sum of its
    /// children's lengths.
    pub open spec fn len(self) -> nat
        decreases self,
    {
        match self {
            ShapeModel::Str(n) | ShapeModel::ByteStr(n) | ShapeModel::CStr(n) => n,
            ShapeModel::Byte | ShapeModel::Bool => 1,
            ShapeModel::Int => word_width(),
            ShapeModel::Float => 8,
            ShapeModel::Char => 4,
            ShapeModel::Sequence { inner, .. } => Self::total_len(inner),
        }
    }

    /// The sum of the lengths of `shapes`.
    pub open spec fn total_len(shapes: Seq<ShapeModel>) -> nat
        decreases shapes,
    {
        if shapes.len() == 0 {
            0
        } else {
            Self::total_len(shapes.drop_last()) + shapes.last().len()
        }
    }

    /// Where the chunk of child `i` starts in the buffer of a sequence: at
    /// the sum of the lengths of the children in front of it.
    pub open spec fn offset(shapes: Seq<ShapeModel>, i: int) -> nat {
        Self::total_len(shapes.take(i))
    }

    /// The chunk of child `i` in the buffer of a sequence.
    pub open spec fn chunk(shapes: Seq<ShapeModel>, bytes: Seq<u8>, i: int) -> Seq<u8> {
        bytes.subrange(
            Self::offset(shapes, i) as int,
            (Self::offset(shapes, i) + shapes[i].len()) as int,
        )
    }

    /// The literal of this shape whose layout is `bytes`: a leaf takes them
    /// all, a sequence hands each child its chunk. Meant for buffers as long
    /// as the shape says.
    pub open spec fn rebuild(self, bytes: Seq<u8>) -> LiteralModel
        decreases self,
    {
        match self {
            ShapeModel::Str(_) => LiteralModel::Str(bytes),
            ShapeModel::ByteStr(_) => LiteralModel::ByteStr(bytes),
            ShapeModel::CStr(_) => LiteralModel::CStr(bytes),
            ShapeModel::Byte => LiteralModel::Byte(bytes),
            ShapeModel::Int => LiteralModel::Int(bytes),
            ShapeModel::Float => LiteralModel::Float(bytes),
            ShapeModel::Char => LiteralModel::Char(bytes),
            ShapeModel::Bool => LiteralModel::Bool(bytes),
            ShapeModel::Sequence { inner, delimiter } => LiteralModel::Sequence {
                inner: Self::rebuild_each(inner, bytes),
                delimiter,
            },
        }
    }

    /// The literals of `shapes`, each from its chunk of `bytes`.
    pub open spec fn rebuild_each(shapes: Seq<ShapeModel>, bytes: Seq<u8>) -> Seq<LiteralModel>
        decreases shapes,
    {
        Seq::new(
            shapes.len(),
            |i: int|
                if 0 <= i < shapes.len() {
                    shapes[i].rebuild(Self::chunk(shapes, bytes, i))
                } else {
                    LiteralModel::ByteStr(Seq::empty())
                },
        )
    }

    /// The cut that takes child `i` off the front of what is left of a
    /// buffer of `len` bytes once the children before it are taken off.
    pub open spec fn split(shapes: Seq<ShapeModel>, len: nat, i: int) -> Split {
        Split {
            total: (len - Self::offset(shapes, i)) as usize,
            left: shapes[i].len() as usize,
            right: (len - Self::offset(shapes, i + 1)) as usize,
        }
    }

    /// The lengths of the first `n` shapes sum to no more than those of all.
    pub proof fn lemma_total_len_take(shapes: Seq<ShapeModel>, n: int)
        requires
            0 <= n <= shapes.len(),
        ensures
            Self::total_len(shapes.take(n)) <= Self::total_len(shapes),
        decreases shapes.len(),
    {
        if n < shapes.len() {
            Self::lemma_total_len_take(shapes.drop_last(), n);
            assert(shapes.drop_last().take(n) =~= shapes.take(n));
        } else {
            assert(shapes.take(n) =~= shapes);
        }
    }

    /// Each chunk ends where the next one starts, and within the total.
    pub proof fn lemma_offset_step(shapes: Seq<ShapeModel>, i: int)
        requires
            0 <= i < shapes.len(),
        ensures
            Self::offset(shapes, i + 1) == Self::offset(shapes, i) + shapes[i].len(),
            Self::offset(shapes, i + 1) <= Self::total_len(shapes),
    {
        assert(shapes.take(i + 1).drop_last() =~= shapes.take(i));
        Self::lemma_total_len_take(shapes, i + 1);
    }
}

impl Shape {
    /// The view of a sequence holds the views of its children, in order.
    pub proof fn lemma_view_sequence(&self)
        requires
            self is Sequence,
        ensures
            self@ is Sequence,
            self@->delimiter == self->delimiter,
            self@->inner.len() == self->inner@.len(),
            forall|i: int| 0 <= i < self->inner@.len() ==> self@->inner[i] == self->inner@[i]@,
    {
        reveal_with_fuel(<Shape as View>::view, 2);
    }

    /// The number of bytes that a literal of this shape takes, where a
    /// `usize` holds it.
    pub fn checked_len(&self) -> (n: Option<usize>)
        ensures
            n matches Some(len) ==> len == self@.len(),
            n is None ==> self@.len() > usize::MAX,
        decreases self,
    {
        match self {
            Shape::Str(n) | Shape::ByteStr(n) | Shape::CStr(n) => Some(*n),
            Shape::Byte | Shape::Bool => Some(1),
            Shape::Int => Some(word_len()),
            Shape::Float => Some(8),
            Shape::Char => Some(4),
            Shape::Sequence { inner, .. } => {
                let ghost shapes = self@->inner;
                proof {
                    self.lemma_view_sequence();
                }
                let mut total: usize = 0;
                let mut i: usize = 0;
                while i < inner.len()
                    invariant
                        i <= inner@.len(),
                        shapes.len() == inner@.len(),
                        forall|j: int| 0 <= j < inner@.len() ==> inner@[j]@ == shapes[j],
                        forall|j: int| 0 <= j < inner@.len() ==> decreases_to!(self => inner@[j]),
                        self@.len() == ShapeModel::total_len(shapes),
                        total == ShapeModel::total_len(shapes.take(i as int)),
                    decreases inner@.len() - i,
                {
                    proof {
                        ShapeModel::lemma_offset_step(shapes, i as int);
                    }
                    let step = match inner[i].checked_len() {
                        Some(n) => total.checked_add(n),
                        None => None,
                    };
                    match step {
                        Some(next) => {
                            total = next;
                        },
                        None => {
                            return None;
                        },
                    }
                    i += 1;
                }
                proof {
                    assert(shapes.take(i as int) =~= shapes);
                }
                Some(total)
            },
        }
    }

    /// The views of `shapes`, in order.
    pub open spec fn views(shapes: Seq<Shape>) -> Seq<ShapeModel> {
        Seq::new(shapes.len(), |i: int| shapes[i]@)
    }

    /// The cuts that take a buffer of `len` bytes apart into the chunks of
    /// `shapes`: each cut takes the next child off the front of what the cuts
    /// before it left. The lengths of the shapes must sum to `len`.
    pub fn splits(shapes: &Vec<Shape>, len: usize) -> (r: Result<Vec<Split>, Error>)
        ensures
            match r {
                Ok(cuts) => {
                    &&& ShapeModel::total_len(Self::views(shapes@)) == len
                    &&& cuts@.len() == shapes@.len()
                    &&& forall|i: int|
                        0 <= i < cuts@.len() ==> #[trigger] cuts@[i] == ShapeModel::split(
                            Self::views(shapes@),
                            len as nat,
                            i,
                        )
                },
                Err(e) => {
                    &&& ShapeModel::total_len(Self::views(shapes@)) != len
                    &&& e == Error::ShapeInvariantViolation
                },
            },
    {
        let ghost models = Self::views(shapes@);
        let mut cuts: Vec<Split> = Vec::new();
        let mut remaining: usize = len;
        let mut i: usize = 0;
        while i < shapes.len()
            invariant
                i <= shapes@.len(),
                models == Self::views(shapes@),
                ShapeModel::offset(models, i as int) + remaining == len,
                cuts@.len() == i,
                forall|j: int|
                    0 <= j < i ==> #[trigger] cuts@[j] == ShapeModel::split(models, len as nat, j),
            decreases shapes@.len() - i,
        {
            proof {
                ShapeModel::lemma_offset_step(models, i as int);
            }
            let left = match shapes[i].checked_len() {
                Some(n) => n,
                None => {
                    return Err(Error::ShapeInvariantViolation);
                },
            };
            let right = match remaining.checked_sub(left) {
                Some(n) => n,
                None => {
                    return Err(Error::ShapeInvariantViolation);
                },
            };
            cuts.push(Split { total: remaining, left, right });
            remaining = right;
            i += 1;
        }
        proof {
            assert(models.take(i as int) =~= models);
        }
        if remaining == 0 {
            Ok(cuts)
        } else {
            Err(Error::ShapeInvariantViolation)
        }
    }

    /// Splits a flat buffer into the literal of this shape.
    ///
    /// A leaf takes the whole buffer; a sequence cuts it into consecutive
    /// chunks, one for each child and as long as the child's shape says.
    /// The buffer must be exactly as long as the shape says.
    pub fn rebuild(&self, plaintext: &[u8]) -> (r: Result<LiteralBytes, Error>)
        ensures
            match r {
                Ok(literal) => self@.len() == plaintext@.len() && literal@ == self@.rebuild(
                    plaintext@,
                ),
                Err(e) => self@.len() != plaintext@.len() && e == Error::ShapeInvariantViolation,
            },
    {
        let size = plaintext.len();
        match self.checked_len() {
            Some(n) => {
                if n == size {
                    Ok(self.rebuild_exact(plaintext))
                } else {
                    Err(Error::ShapeInvariantViolation)
                }
            },
            None => Err(Error::ShapeInvariantViolation),
        }
    }

    fn rebuild_exact(&self, plaintext: &[u8]) -> (literal: LiteralBytes)
        requires
            self@.len() == plaintext@.len(),
        ensures
            literal@ == self@.rebuild(plaintext@),
        decreases self,
    {
        match self {
            Shape::Str(_) => LiteralBytes::Str(slice_to_vec(plaintext)),
            Shape::ByteStr(_) => LiteralBytes::ByteStr(slice_to_vec(plaintext)),
            Shape::CStr(_) => LiteralBytes::CStr(slice_to_vec(plaintext)),
            Shape::Byte => LiteralBytes::Byte(slice_to_vec(plaintext)),
            Shape::Int => LiteralBytes::Int(slice_to_vec(plaintext)),
            Shape::Float => LiteralBytes::Float(slice_to_vec(plaintext)),
            Shape::Char => LiteralBytes::Char(slice_to_vec(plaintext)),
            Shape::Bool => LiteralBytes::Bool(slice_to_vec(plaintext)),
            Shape::Sequence { inner, delimiter } => {
                let ghost shapes = self@->inner;
                proof {
                    self.lemma_view_sequence();
                }
                let size = plaintext.len();
                let mut items: Vec<LiteralBytes> = Vec::new();
                let mut offset: usize = 0;
                let mut i: usize = 0;
                while i < inner.len()
                    invariant
                        i <= inner@.len(),
                        shapes.len() == inner@.len(),
                        forall|j: int| 0 <= j < inner@.len() ==> inner@[j]@ == shapes[j],
                        forall|j: int| 0 <= j < inner@.len() ==> decreases_to!(self => inner@[j]),
                        ShapeModel::total_len(shapes) == plaintext@.len(),
                        plaintext@.len() == size,
                        offset == ShapeModel::offset(shapes, i as int),
                        items@.len() == i,
                        forall|j: int|
                            0 <= j < i ==> (#[trigger] items@[j])@ == shapes[j].rebuild(
                                ShapeModel::chunk(shapes, plaintext@, j),
                            ),
                    decreases inner@.len() - i,
                {
                    proof {
                        ShapeModel::lemma_offset_step(shapes, i as int);
                    }
                    let n = match inner[i].checked_len() {
                        Some(n) => n,
                        None => 0,
                    };
                    let chunk = slice_subrange(plaintext, offset, offset + n);
                    let item = inner[i].rebuild_exact(chunk);
                    items.push(item);
                    offset = offset + n;
                    i += 1;
                }
                let literal = LiteralBytes::Sequence { inner: items, delimiter: *delimiter };
                proof {
                    literal.lemma_view_sequence();
                    assert(literal@->inner =~= ShapeModel::rebuild_each(shapes, plaintext@));
                }
                literal
            },
        }
    }
}

} // verus!
