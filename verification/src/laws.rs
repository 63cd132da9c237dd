//! Laws of the parser: properties that hold of every parse, stated over
//! the model and proved once and for all.

use vstd::prelude::*;
use crate::model::{
    filtered, find_from, lemma_find_from_is_first, spec_parse, spec_parse_from, RecordModel,
};
use crate::records::ParseError;

verus! {

/// Law: an empty input parses to a file with zero records, not an error.
pub proof fn lemma_parse_empty(data: Seq<u8>)
    requires
        data.len() == 0,
    ensures
        spec_parse(data) == Ok::<Seq<RecordModel>, ParseError>(Seq::<RecordModel>::empty()),
{
}

/// Law: parsing is idempotent. Any two outcomes of parsing the same
/// buffer, each as the parser's contract states, are value-equal.
pub proof fn lemma_parse_idempotent(
    data: Seq<u8>,
    m1: Result<Seq<RecordModel>, ParseError>,
    m2: Result<Seq<RecordModel>, ParseError>,
)
    requires
        m1 == spec_parse(data),
        m2 == spec_parse(data),
    ensures
        m1 == m2,
{
}

/// Law: the lazy view and the compaction routine agree. The bytes a full
/// traversal of the lazy view yields and the compacted copy of the same
/// raw span, each as its contract states, are the same sequence, whatever
/// line feeds the span embeds.
pub proof fn lemma_lazy_view_matches_compaction(
    raw: Seq<u8>,
    traversed: Seq<u8>,
    compacted: Seq<u8>,
)
    requires
        traversed == filtered(raw),
        compacted == filtered(raw),
    ensures
        traversed == compacted,
{
}

/// Exact span boundaries of one record: the sequence span is non-empty,
/// includes no `>` byte (in particular not the one that terminated it),
/// and the description span includes no line feed (in particular not the
/// one that terminated the description line).
pub open spec fn span_exact(r: RecordModel) -> bool {
    &&& r.sequence.len() > 0
    &&& forall|j: int| 0 <= j < r.sequence.len() ==> r.sequence[j] != 62u8
    &&& forall|j: int| 0 <= j < r.description.len() ==> r.description[j] != 10u8
}

proof fn lemma_span_exact_from(data: Seq<u8>, cursor: int)
    requires
        0 <= cursor <= data.len(),
        spec_parse_from(data, cursor) is Ok,
    ensures
        forall|i: int|
            0 <= i < spec_parse_from(data, cursor)->Ok_0.len() ==> span_exact(
                #[trigger] spec_parse_from(data, cursor)->Ok_0[i],
            ),
    decreases data.len() - cursor,
{
    if cursor < data.len() {
        let header_end = find_from(data, 10u8, cursor + 1);
        lemma_find_from_is_first(data, 10u8, cursor + 1);
        let seq_start = header_end + 1;
        let seq_end = find_from(data, 62u8, seq_start);
        lemma_find_from_is_first(data, 62u8, seq_start);
        lemma_span_exact_from(data, seq_end);
        let first = RecordModel {
            description: data.subrange(cursor + 1, header_end),
            sequence: data.subrange(seq_start, seq_end),
        };
        let rest = spec_parse_from(data, seq_end)->Ok_0;
        assert(spec_parse_from(data, cursor)->Ok_0 == seq![first] + rest);
        assert(span_exact(first)) by {
            assert forall|j: int| 0 <= j < first.sequence.len() implies first.sequence[j] != 62u8 by {
                assert(first.sequence[j] == data[seq_start + j]);
            }
            assert forall|j: int|
                0 <= j < first.description.len() implies first.description[j] != 10u8 by {
                assert(first.description[j] == data[cursor + 1 + j]);
            }
        }
        assert forall|i: int|
            0 <= i < spec_parse_from(data, cursor)->Ok_0.len() implies span_exact(
            #[trigger] spec_parse_from(data, cursor)->Ok_0[i],
        ) by {
            if i == 0 {
                assert(spec_parse_from(data, cursor)->Ok_0[0] == first);
            } else {
                assert(spec_parse_from(data, cursor)->Ok_0[i] == rest[i - 1]);
            }
        }
    }
}

/// Law: boundary byte exactness. On a successful parse, every record's
/// sequence span is non-empty, never includes a `>` byte (in particular
/// not the one that terminated it), and every record's description span
/// never includes a line feed (in particular not the one that terminated
/// its description line).
pub proof fn lemma_boundary_exactness(data: Seq<u8>)
    requires
        spec_parse(data) is Ok,
    ensures
        forall|i: int|
            0 <= i < spec_parse(data)->Ok_0.len() ==> span_exact(
                #[trigger] spec_parse(data)->Ok_0[i],
            ),
{
    lemma_span_exact_from(data, 0);
}

/// The original bytes of one record: the leading `>`, the description
/// line, its terminating newline, and the raw sequence span.
pub open spec fn record_slice(r: RecordModel) -> Seq<u8> {
    seq![62u8] + r.description + seq![10u8] + r.sequence
}

/// `r`'s bytes stand verbatim in `data` beginning at `start`.
pub open spec fn record_at(data: Seq<u8>, start: int, r: RecordModel) -> bool {
    &&& 0 <= start
    &&& start + record_slice(r).len() <= data.len()
    &&& data.subrange(start, start + record_slice(r).len() as int) == record_slice(r)
}

/// `r`'s bytes stand verbatim somewhere in `data`.
pub open spec fn embedded(data: Seq<u8>, r: RecordModel) -> bool {
    exists|start: int| #[trigger] record_at(data, start, r)
}

proof fn lemma_round_trip_from(data: Seq<u8>, cursor: int)
    requires
        0 <= cursor <= data.len(),
        spec_parse_from(data, cursor) is Ok,
    ensures
        forall|i: int|
            0 <= i < spec_parse_from(data, cursor)->Ok_0.len() ==> embedded(
                data,
                #[trigger] spec_parse_from(data, cursor)->Ok_0[i],
            ),
    decreases data.len() - cursor,
{
    if cursor < data.len() {
        let header_end = find_from(data, 10u8, cursor + 1);
        lemma_find_from_is_first(data, 10u8, cursor + 1);
        let seq_start = header_end + 1;
        let seq_end = find_from(data, 62u8, seq_start);
        lemma_find_from_is_first(data, 62u8, seq_start);
        lemma_round_trip_from(data, seq_end);
        let first = RecordModel {
            description: data.subrange(cursor + 1, header_end),
            sequence: data.subrange(seq_start, seq_end),
        };
        let rest = spec_parse_from(data, seq_end)->Ok_0;
        assert(spec_parse_from(data, cursor)->Ok_0 == seq![first] + rest);
        assert(record_at(data, cursor, first)) by {
            assert(record_slice(first).len() == seq_end - cursor);
            assert(data.subrange(cursor, seq_end) =~= record_slice(first));
        }
        assert forall|i: int|
            0 <= i < spec_parse_from(data, cursor)->Ok_0.len() implies embedded(
            data,
            #[trigger] spec_parse_from(data, cursor)->Ok_0[i],
        ) by {
            if i == 0 {
                assert(spec_parse_from(data, cursor)->Ok_0[0] == first);
                assert(record_at(data, cursor, spec_parse_from(data, cursor)->Ok_0[i]));
            } else {
                assert(spec_parse_from(data, cursor)->Ok_0[i] == rest[i - 1]);
                assert(embedded(data, spec_parse_from(data, seq_end)->Ok_0[i - 1]));
                let w = choose|start: int|
                    #[trigger] record_at(data, start, spec_parse_from(data, seq_end)->Ok_0[i - 1]);
                assert(record_at(data, w, spec_parse_from(data, cursor)->Ok_0[i]));
            }
        }
    }
}

/// Law: round-trip identity. On a successful parse, re-adding the leading
/// `>` and concatenating `description`, the terminating newline, and
/// `raw_sequence` reproduces, for every record, that record's original
/// slice of the input buffer exactly.
pub proof fn lemma_round_trip(data: Seq<u8>)
    requires
        spec_parse(data) is Ok,
    ensures
        forall|i: int|
            0 <= i < spec_parse(data)->Ok_0.len() ==> embedded(
                data,
                #[trigger] spec_parse(data)->Ok_0[i],
            ),
{
    lemma_round_trip_from(data, 0);
    assert forall|i: int| 0 <= i < spec_parse(data)->Ok_0.len() implies embedded(
        data,
        #[trigger] spec_parse(data)->Ok_0[i],
    ) by {
        assert(embedded(data, spec_parse_from(data, 0)->Ok_0[i]));
    }
}

} // verus!
