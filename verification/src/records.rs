//! The entities the scanner hands back: borrowed record views into the
//! parsed buffer, a lazy newline-filtering view, and the parse error.

use vstd::prelude::*;
use crate::model::{
    filtered, lemma_filtered_len, lemma_filtered_skip_step, lemma_filtered_take_step,
    lemma_find_from_is_first, RecordModel,
};
use crate::search::find_byte_from;

verus! {

/// FASTA parsing error returned by the scanning pass.
#[derive(Clone, Debug, PartialEq, Eq, Structural)]
pub enum ParseError {
    /// Invalid descriptor start character: the byte found where a record
    /// boundary required a `>`. Since excess bytes between records are read
    /// as sequence content, this can only arise at the very first byte of a
    /// non-empty buffer.
    InvalidDescription {
        /// The one-byte code point of the wrong descriptor character.
        invalid: u8,
    },
    /// A valid descriptor was parsed, but no sequence body follows it:
    /// the buffer ended, or the next `>` occurred, immediately after the
    /// description line with zero sequence bytes in between.
    EmptySequence,
}

/// A Multi-FASTA file: zero, one, or more records, in file order.
/// Each record borrows from the buffer the file was parsed from.
#[derive(Clone, Debug)]
pub struct Fasta<'a> {
    /// The records present in the file.
    pub sequences: Vec<FastaSequence<'a>>,
}

/// One FASTA record: a description span and a raw sequence span, both
/// borrowed from the parsed buffer. The sequence span is kept verbatim,
/// embedded line feeds included; accessing its logical content filters
/// them out on demand.
#[derive(Clone, Debug)]
pub struct FastaSequence<'a> {
    /// Description bytes, without the leading `>` and the trailing newline.
    pub description: &'a [u8],
    /// Raw sequence bytes, embedded line feeds included.
    pub sequence: &'a [u8],
}

impl<'a> View for FastaSequence<'a> {
    type V = RecordModel;

    open spec fn view(&self) -> RecordModel {
        RecordModel { description: self.description@, sequence: self.sequence@ }
    }
}

/// The models of a sequence of records, in order.
pub open spec fn records_view<'a>(v: Seq<FastaSequence<'a>>) -> Seq<RecordModel> {
    v.map_values(|s: FastaSequence<'a>| s@)
}

impl<'a> View for Fasta<'a> {
    type V = Seq<RecordModel>;

    open spec fn view(&self) -> Seq<RecordModel> {
        records_view(self.sequences@)
    }
}

/// A lazy view over a raw sequence span: it yields the span's bytes with
/// every line feed skipped, re-deriving the filtered stream from the
/// stored span as it goes. Each fresh view from `FastaSequence::iter`
/// restarts the traversal; nothing is cached, so a full traversal costs
/// one pass over the raw span every time.
pub struct SequenceIter<'a> {
    sequence: &'a [u8],
    pos: usize,
}

impl<'a> SequenceIter<'a> {
    /// The view's position lies within its span.
    pub closed spec fn wf(self) -> bool {
        self.pos <= self.sequence@.len()
    }
}

impl<'a> View for SequenceIter<'a> {
    type V = Seq<u8>;

    /// The filtered bytes the view has yet to yield.
    closed spec fn view(&self) -> Seq<u8> {
        filtered(self.sequence@.skip(self.pos as int))
    }
}

impl<'a> SequenceIter<'a> {
    /// Yield the next sequence byte, skipping over line feeds, or `None`
    /// once the span is exhausted.
    pub fn next(&mut self) -> (r: Option<u8>)
        requires
            old(self).wf(),
        ensures
            final(self).wf(),
            old(self)@.len() == 0 ==> r is None && final(self)@ == old(self)@,
            old(self)@.len() > 0 ==> r == Some(old(self)@[0]) && final(self)@ == old(
                self,
            )@.drop_first(),
    {
        let s: &[u8] = self.sequence;
        let mut i: usize = self.pos;
        while i < s.len() && s[i] == 10u8
            invariant
                i <= s@.len(),
                filtered(s@.skip(i as int)) == old(self)@,
                s@ == old(self).sequence@,
            decreases s@.len() - i,
        {
            proof {
                lemma_filtered_skip_step(s@, i as int);
            }
            i = i + 1;
        }
        if i < s.len() {
            let b = s[i];
            proof {
                lemma_filtered_skip_step(s@, i as int);
            }
            self.pos = i + 1;
            Some(b)
        } else {
            proof {
                assert(s@.skip(i as int) =~= Seq::<u8>::empty());
            }
            self.pos = i;
            None
        }
    }
}

impl<'a> FastaSequence<'a> {
    /// Returns a lazy view over the sequence characters, excluding
    /// newlines. The parser expects unix-style line breaks, so carriage
    /// returns are preserved.
    ///
    /// Line feeds are filtered out on the fly: every fresh view repeats
    /// the search-and-skip work over the raw span.
    #[inline]
    pub fn iter(&self) -> (r: SequenceIter<'a>)
        ensures
            r.wf(),
            r@ == filtered(self@.sequence),
    {
        proof {
            assert(self.sequence@.skip(0) =~= self.sequence@);
        }
        SequenceIter { sequence: self.sequence, pos: 0 }
    }

    /// Copy the sequence into a consecutive memory region, skipping
    /// newline symbols; every other symbol (whitespace and carriage
    /// returns included) is preserved. The returned buffer holds exactly
    /// the filtered sequence. One buffer is allocated, sized to the raw
    /// span length (an upper bound on the filtered length), and logically
    /// truncated to the bytes written: exactly one allocation is performed
    /// however many line breaks the span embeds.
    #[must_use]
    pub fn copy_sequential(&self) -> (r: Vec<u8>)
        ensures
            r@ == filtered(self@.sequence),
    {
        let s: &[u8] = self.sequence;
        let mut buffer: Vec<u8> = Vec::with_capacity(s.len());
        let mut pos: usize = 0;
        proof {
            assert(s@.take(0) =~= Seq::<u8>::empty());
        }
        while pos < s.len()
            invariant
                pos <= s@.len(),
                buffer@ == filtered(s@.take(pos as int)),
                s@ == self.sequence@,
            decreases s@.len() - pos,
        {
            let pivot = find_byte_from(s, 10u8, pos);
            proof {
                lemma_find_from_is_first(s@, 10u8, pos as int);
            }
            let mut k: usize = pos;
            while k < pivot
                invariant
                    pos <= k <= pivot <= s@.len(),
                    buffer@ == filtered(s@.take(k as int)),
                    forall|j: int| k <= j < pivot ==> s@[j] != 10u8,
                decreases pivot - k,
            {
                let b = s[k];
                buffer.push(b);
                proof {
                    lemma_filtered_take_step(s@, k as int);
                }
                k = k + 1;
            }
            if pivot < s.len() {
                // Skip the line feed itself and continue just past it.
                proof {
                    lemma_filtered_take_step(s@, pivot as int);
                }
                pos = pivot + 1;
            } else {
                pos = pivot;
            }
        }
        proof {
            assert(s@.take(s@.len() as int) =~= s@);
        }
        buffer
    }

    /// The maximum size in bytes this sequence occupies: the raw span
    /// length, an upper bound on the filtered sequence length since the
    /// span may embed line feeds that filtering elides.
    pub fn size_hint(&self) -> (r: usize)
        ensures
            r == self@.sequence.len(),
            filtered(self@.sequence).len() <= r,
    {
        proof {
            lemma_filtered_len(self.sequence@);
        }
        self.sequence.len()
    }
}

} // verus!
