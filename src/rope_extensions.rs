use vstd::prelude::*;

use crate::attributed_rope::AttributedRope;
use crate::leaf_seq::{flat_attrs, flat_cells, lemma_flat_lens, lemma_leaf_start_end, lemma_leaf_start_mono};
use vstd::string::StringSliceAdditionalSpecFns;

verus! {

impl<Cell: Copy + PartialEq, Attribute: Copy + PartialEq + Default> AttributedRope<Cell, Attribute> {
    /// Whether two ropes hold equal cells with equal attributes. How the
    /// attributes are divided into runs does not matter.
    pub fn equals(&self, other: &Self) -> (r: bool)
        requires
            self.wf(),
            other.wf(),
            vstd::laws_eq::obeys_concrete_eq::<Cell>(),
            vstd::laws_eq::obeys_concrete_eq::<Attribute>(),
        ensures
            r == (self.cells() == other.cells() && self.attrs() == other.attrs()),
    {
        proof {
            reveal(vstd::laws_eq::obeys_concrete_eq);
            crate::leaf_seq::lemma_flat_lens(self.leaves());
            crate::leaf_seq::lemma_flat_lens(other.leaves());
        }
        let len = self.len();
        if len != other.len() {
            return false;
        }
        let a = self.read_cells(0..len);
        let b = other.read_cells(0..len);
        proof {
            assert(a@ =~= self.cells());
            assert(b@ =~= other.cells());
        }
        let mut i: usize = 0;
        while i < len
            invariant
                i <= len,
                len == a@.len(),
                len == b@.len(),
                a@ == self.cells(),
                b@ == other.cells(),
                forall|j: int| 0 <= j < i ==> #[trigger] a@[j] == b@[j],
                vstd::laws_eq::obeys_concrete_eq::<Cell>(),
            decreases len - i,
        {
            proof {
                reveal(vstd::laws_eq::obeys_concrete_eq);
            }
            if !a[i].eq(&b[i]) {
                return false;
            }
            i = i + 1;
        }
        proof {
            assert(self.cells() =~= other.cells());
        }
        let mut pos: usize = 0;
        while pos < len
            invariant
                pos <= len,
                len == self.cells().len(),
                len == other.cells().len(),
                self.cells().len() == self.attrs().len(),
                other.cells().len() == other.attrs().len(),
                self.wf(),
                other.wf(),
                vstd::laws_eq::obeys_concrete_eq::<Attribute>(),
                forall|j: int| 0 <= j < pos ==> #[trigger] self.attrs()[j] == other.attrs()[j],
            decreases len - pos,
        {
            let (x, rx) = self.read_attributes(pos);
            let (y, ry) = other.read_attributes(pos);
            proof {
                reveal(vstd::laws_eq::obeys_concrete_eq);
            }
            if !x.eq(y) {
                return false;
            }
            let next = if rx.end < ry.end {
                rx.end
            } else {
                ry.end
            };
            proof {
                assert forall|j: int| 0 <= j < next implies #[trigger] self.attrs()[j] == other.attrs()[j] by {
                    if j >= pos {
                        assert(self.attrs()[j] == *x);
                        assert(other.attrs()[j] == *y);
                    }
                }
            }
            pos = next;
        }
        proof {
            assert(self.attrs() =~= other.attrs());
        }
        true
    }
}

impl<Cell: Copy, Attribute: Copy + PartialEq + Default> AttributedRope<Cell, Attribute> {
    /// Appends cells at the end of the rope.
    pub fn extend(&mut self, cells: Vec<Cell>)
        requires
            old(self).wf(),
            old(self).cells().len() + cells@.len() <= usize::MAX,
        ensures
            final(self).wf(),
            final(self).cells() == old(self).cells() + cells@,
    {
        let len = self.len();
        proof {
            assert(old(self).cells().take(len as int) =~= old(self).cells());
            assert(old(self).cells().skip(len as int) =~= Seq::<Cell>::empty());
        }
        self.replace(len..len, cells);
        proof {
            assert(old(self).cells().take(len as int) + cells@ + old(self).cells().skip(len as int) =~= old(
                self,
            ).cells() + cells@);
        }
    }

    /// Appends copies of the given cells at the end of the rope.
    pub fn extend_from_slice(&mut self, cells: &[Cell])
        requires
            old(self).wf(),
            old(self).cells().len() + cells@.len() <= usize::MAX,
        ensures
            final(self).wf(),
            final(self).cells() == old(self).cells() + cells@,
    {
        let mut copy: Vec<Cell> = Vec::new();
        let mut i: usize = 0;
        while i < cells.len()
            invariant
                i <= cells@.len(),
                copy@ == cells@.subrange(0, i as int),
            decreases cells@.len() - i,
        {
            copy.push(cells[i]);
            i = i + 1;
            proof {
                assert(copy@ =~= cells@.subrange(0, i as int));
            }
        }
        proof {
            assert(copy@ =~= cells@);
        }
        self.extend(copy);
    }
}

/// The runs as sequences of cells with their attribute.
pub open spec fn runs_view<Cell, Attribute>(runs: Seq<(Vec<Cell>, Attribute)>) -> Seq<(Seq<Cell>, Attribute)> {
    runs.map_values(|r: (Vec<Cell>, Attribute)| (r.0@, r.1))
}

impl<Cell: Copy, Attribute: Copy + PartialEq + Default> AttributedRope<Cell, Attribute> {
    /// The rope as runs of cells, each with its attribute, in order.
    pub fn to_runs(&self) -> (r: Vec<(Vec<Cell>, Attribute)>)
        requires
            self.wf(),
            vstd::laws_eq::obeys_concrete_eq::<Attribute>(),
        ensures
            flat_cells(runs_view(r@)) == self.cells(),
            flat_attrs(runs_view(r@)) == self.attrs(),
    {
        let len = self.len();
        let mut out: Vec<(Vec<Cell>, Attribute)> = Vec::new();
        let mut pos: usize = 0;
        proof {
            lemma_flat_lens(self.leaves());
            assert(runs_view(out@) =~= Seq::<(Seq<Cell>, Attribute)>::empty());
            assert(self.cells().take(0) =~= Seq::<Cell>::empty());
            assert(self.attrs().take(0) =~= Seq::<Attribute>::empty());
        }
        while pos < len
            invariant
                self.wf(),
                vstd::laws_eq::obeys_concrete_eq::<Attribute>(),
                pos <= len,
                len == self.cells().len(),
                len == self.attrs().len(),
                flat_cells(runs_view(out@)) == self.cells().take(pos as int),
                flat_attrs(runs_view(out@)) == self.attrs().take(pos as int),
            decreases len - pos,
        {
            let (attr, extent) = self.read_attributes(pos);
            let end = extent.end;
            let cells = self.read_cells(pos..end);
            let ghost prev = out@;
            out.push((cells, *attr));
            proof {
                let v = runs_view(out@);
                assert(v.drop_last() =~= runs_view(prev));
                assert(v.last() == (cells@, *attr));
                assert(self.cells().take(end as int) =~= self.cells().take(pos as int) + cells@);
                assert(self.attrs().take(end as int) =~= self.attrs().take(pos as int) + Seq::new(
                    cells@.len(),
                    |_i: int| *attr,
                ));
            }
            pos = end;
        }
        proof {
            assert(self.cells().take(len as int) =~= self.cells());
            assert(self.attrs().take(len as int) =~= self.attrs());
        }
        out
    }

    /// A rope rebuilt from runs: each run is appended in turn with
    /// `replace_attributes`.
    pub fn from_runs(runs: Vec<(Vec<Cell>, Attribute)>) -> (r: Self)
        requires
            vstd::laws_eq::obeys_concrete_eq::<Attribute>(),
            flat_cells(runs_view(runs@)).len() <= usize::MAX,
        ensures
            r.wf(),
            r.cells() == flat_cells(runs_view(runs@)),
            r.attrs() == flat_attrs(runs_view(runs@)),
    {
        let ghost orig = runs@;
        let mut runs = runs;
        let mut rope = Self::new();
        let ghost mut k: int = 0;
        proof {
            lemma_flat_lens(rope.leaves());
            assert(runs_view(orig.take(0)) =~= Seq::<(Seq<Cell>, Attribute)>::empty());
            assert(runs@ =~= orig.skip(0));
        }
        while runs.len() > 0
            invariant
                vstd::laws_eq::obeys_concrete_eq::<Attribute>(),
                rope.wf(),
                0 <= k <= orig.len(),
                runs@ == orig.skip(k),
                rope.cells() == flat_cells(runs_view(orig.take(k))),
                rope.attrs() == flat_attrs(runs_view(orig.take(k))),
                flat_cells(runs_view(orig)).len() <= usize::MAX,
            decreases runs@.len(),
        {
            let (cells, attr) = runs.remove(0);
            let ghost v = runs_view(orig);
            proof {
                assert(orig[k] == (cells, attr));
                assert(runs_view(orig.take(k + 1)) =~= v.take(k + 1));
                assert(runs_view(orig.take(k)) =~= v.take(k));
                lemma_leaf_start_mono(v, k + 1, v.len() as int);
                lemma_leaf_start_end(v);
                assert(v.take(k + 1).drop_last() =~= v.take(k));
                assert(v.take(k + 1).last() == (cells@, attr));
                assert(v.take(v.len() as int) =~= v);
            }
            let len = rope.len();
            let ghost before_cells = rope.cells();
            let ghost before_attrs = rope.attrs();
            let ghost n = cells@.len();
            rope.replace_attributes(len..len, cells, attr);
            proof {
                lemma_flat_lens(v.take(k));
                assert(before_cells.take(len as int) =~= before_cells);
                assert(before_cells.skip(len as int) =~= Seq::<Cell>::empty());
                assert(before_attrs.take(len as int) =~= before_attrs);
                assert(before_attrs.skip(len as int) =~= Seq::<Attribute>::empty());
                assert(rope.cells() =~= flat_cells(v.take(k + 1)));
                assert(rope.attrs() =~= flat_attrs(v.take(k + 1)));
                k = k + 1;
                assert(runs@ =~= orig.skip(k));
            }
        }
        proof {
            assert(orig.take(k) =~= orig);
        }
        rope
    }
}

/// Rebuilding a rope from its runs gives a rope that compares equal to it:
/// the same cells, with the same attributes.
pub proof fn lemma_runs_round_trip<Cell, Attribute>(
    original: AttributedRope<Cell, Attribute>,
    runs: Seq<(Seq<Cell>, Attribute)>,
    rebuilt: AttributedRope<Cell, Attribute>,
)
    requires
        flat_cells(runs) == original.cells(),
        flat_attrs(runs) == original.attrs(),
        rebuilt.cells() == flat_cells(runs),
        rebuilt.attrs() == flat_attrs(runs),
    ensures
        rebuilt.cells() == original.cells() && rebuilt.attrs() == original.attrs(),
{
}

/// What `String::from_utf8_lossy` makes of a sequence of bytes.
pub uninterp spec fn utf8_lossy(bytes: Seq<u8>) -> Seq<char>;

/// Whether every byte is ASCII.
pub open spec fn all_ascii(bytes: Seq<u8>) -> bool {
    forall|i: int| 0 <= i < bytes.len() ==> #[trigger] bytes[i] < 128
}

/// The characters of ASCII bytes.
pub open spec fn ascii_chars(bytes: Seq<u8>) -> Seq<char> {
    bytes.map_values(|b: u8| b as char)
}

/// Relies on `String::from_utf8_lossy`: the text depends on the bytes
/// alone, no bytes give no text, and valid UTF-8 (ASCII in particular)
/// comes back as it is.
#[verifier::external_body]
fn lossy_string(bytes: &[u8]) -> (r: String)
    ensures
        r@ == utf8_lossy(bytes@),
        bytes@.len() == 0 ==> r@.len() == 0,
        all_ascii(bytes@) ==> r@ == ascii_chars(bytes@),
{
    String::from_utf8_lossy(bytes).into_owned()
}

/// A rope of bytes that can be built from, and read as, text.
pub trait Utf8Rope: Sized {
    /// The rope can be read.
    spec fn text_ready(&self) -> bool;

    /// The bytes of the rope.
    spec fn byte_seq(&self) -> Seq<u8>;

    /// A rope of the UTF-8 bytes of a string.
    fn from_str(string: &str) -> (r: Self)
        ensures
            r.text_ready(),
            r.byte_seq() == string.spec_bytes(),
    ;

    /// The text of the rope's bytes, where sequences that are not UTF-8
    /// become replacement characters.
    fn to_string_lossy(&self) -> (r: String)
        requires
            self.text_ready(),
        ensures
            r@ == utf8_lossy(self.byte_seq()),
            all_ascii(self.byte_seq()) ==> r@ == ascii_chars(self.byte_seq()),
    ;
}

impl<Attribute: Copy + PartialEq + Default> Utf8Rope for AttributedRope<u8, Attribute> {
    open spec fn text_ready(&self) -> bool {
        self.wf()
    }

    open spec fn byte_seq(&self) -> Seq<u8> {
        self.cells()
    }

    fn from_str(string: &str) -> (r: Self) {
        let bytes = string.as_bytes();
        let mut cells: Vec<u8> = Vec::new();
        let mut i: usize = 0;
        while i < bytes.len()
            invariant
                i <= bytes@.len(),
                cells@ == bytes@.subrange(0, i as int),
            decreases bytes@.len() - i,
        {
            cells.push(bytes[i]);
            i = i + 1;
            proof {
                assert(cells@ =~= bytes@.subrange(0, i as int));
            }
        }
        proof {
            assert(cells@ =~= bytes@);
        }
        AttributedRope::from(cells)
    }

    fn to_string_lossy(&self) -> (r: String) {
        let len = self.len();
        let bytes = self.read_cells(0..len);
        proof {
            assert(bytes@ =~= self.cells());
        }
        lossy_string(bytes.as_slice())
    }
}
} // verus!
