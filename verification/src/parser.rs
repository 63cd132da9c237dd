//! The boundary scanner: one forward pass, never backtracking, that splits
//! a byte buffer into successive description and sequence spans.

use vstd::prelude::*;
use vstd::slice::slice_subrange;
use vstd::string::StringSliceAdditionalSpecFns;
use crate::model::{spec_parse, spec_parse_from, RecordModel};
use crate::records::{records_view, Fasta, FastaSequence, ParseError};
use crate::search::find_byte_from;

verus! {

/// Expect that the byte at `cursor` equals `expected`; if it does, advance
/// the cursor past it.
fn expect(data: &[u8], expected: u8, cursor: &mut usize) -> (r: bool)
    requires
        *old(cursor) < data@.len(),
    ensures
        r == (data@[*old(cursor) as int] == expected),
        *final(cursor) == if r {
            *old(cursor) + 1
        } else {
            *old(cursor) as int
        },
{
    if data[*cursor] == expected {
        *cursor += 1;
        true
    } else {
        false
    }
}

/// Parse a FASTA or Multi-FASTA buffer.
///
/// Sequence descriptions are expected to start with `>`. The deprecated
/// comment character `;` is not parsed, neither for sequence descriptors
/// nor for additional comment lines. Parsing is done lazily: description
/// and sequence spans are identified, but not further processed.
///
/// On success the result holds exactly the records of the model's
/// decomposition of the buffer; an empty buffer yields a `Fasta` with zero
/// records. If the buffer is not empty but its first byte is not `>`, the
/// parse fails with `InvalidDescription` carrying that byte; if a valid
/// description line has no sequence byte after it, the parse fails with
/// `EmptySequence`. Parsing is all-or-nothing: no partial record list is
/// ever returned.
pub fn parse_fasta<'a>(data: &'a [u8]) -> (r: Result<Fasta<'a>, ParseError>)
    ensures
        match (r, spec_parse(data@)) {
            (Ok(f), Ok(m)) => f@ == m,
            (Err(e1), Err(e2)) => e1 == e2,
            _ => false,
        },
{
    let mut sequences: Vec<FastaSequence<'a>> = Vec::new();

    if data.len() == 0 {
        proof {
            assert(records_view(sequences@) =~= Seq::<RecordModel>::empty());
        }
        return Ok(Fasta { sequences });
    }

    let mut cursor: usize = 0;

    proof {
        if let Ok(rest) = spec_parse_from(data@, 0) {
            assert(records_view(sequences@) + rest =~= rest);
        }
    }

    while cursor < data.len()
        invariant
            cursor <= data@.len(),
            match spec_parse_from(data@, cursor as int) {
                Ok(rest) => spec_parse(data@) == Ok::<Seq<RecordModel>, ParseError>(
                    records_view(sequences@) + rest,
                ),
                Err(e) => spec_parse(data@) == Err::<Seq<RecordModel>, ParseError>(e),
            },
        decreases data@.len() - cursor,
    {
        let ghost c0 = cursor as int;

        if !expect(data, 62u8, &mut cursor) {
            return Err(ParseError::InvalidDescription { invalid: data[cursor] });
        }

        let header_end = find_byte_from(data, 10u8, cursor);
        if header_end >= data.len() {
            // The description runs to the end of the buffer: no sequence
            // can follow it.
            return Err(ParseError::EmptySequence);
        }
        let description = slice_subrange(data, cursor, header_end);
        cursor = header_end + 1;

        if cursor >= data.len() {
            return Err(ParseError::EmptySequence);
        }

        let sequence_end = find_byte_from(data, 62u8, cursor);
        if sequence_end == cursor {
            // Another `>` immediately follows the description line: the
            // record has a zero-length body.
            return Err(ParseError::EmptySequence);
        }
        let sequence = slice_subrange(data, cursor, sequence_end);

        let ghost prev = sequences@;
        let record = FastaSequence { description, sequence };
        sequences.push(record);

        proof {
            let first = RecordModel {
                description: data@.subrange(c0 + 1, header_end as int),
                sequence: data@.subrange(cursor as int, sequence_end as int),
            };
            assert(record@ =~= first);
            assert(records_view(sequences@) =~= records_view(prev).push(first));
            match spec_parse_from(data@, sequence_end as int) {
                Ok(rest2) => {
                    assert(spec_parse_from(data@, c0) == Ok::<Seq<RecordModel>, ParseError>(
                        seq![first] + rest2,
                    ));
                    assert(records_view(prev) + (seq![first] + rest2) =~= records_view(
                        sequences@,
                    ) + rest2);
                },
                Err(e) => {
                    assert(spec_parse_from(data@, c0) == Err::<Seq<RecordModel>, ParseError>(e));
                },
            }
        }

        cursor = sequence_end;
    }

    proof {
        if let Ok(rest) = spec_parse_from(data@, cursor as int) {
            assert(records_view(sequences@) + rest =~= records_view(sequences@));
        }
    }
    Ok(Fasta { sequences })
}

/// Parse a FASTA or Multi-FASTA file given as text; the text is treated as
/// its underlying bytes. Behaves exactly as `parse_fasta` on those bytes.
pub fn parse_fasta_str<'a>(s: &'a str) -> (r: Result<Fasta<'a>, ParseError>)
    ensures
        match (r, spec_parse(s.spec_bytes())) {
            (Ok(f), Ok(m)) => f@ == m,
            (Err(e1), Err(e2)) => e1 == e2,
            _ => false,
        },
{
    parse_fasta(s.as_bytes())
}

} // verus!
