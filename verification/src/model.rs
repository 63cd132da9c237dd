//! The mathematical model of Multi-FASTA parsing: newline filtering, first
//! occurrence search, and the record decomposition the scanner must produce.

use vstd::prelude::*;
use crate::records::ParseError;

verus! {

/// The bytes of a span with every line-feed byte removed: the logical
/// sequence content of a raw sequence span.
pub open spec fn filtered(s: Seq<u8>) -> Seq<u8>
    decreases s.len(),
{
    if s.len() == 0 {
        Seq::empty()
    } else if s[0] == 10u8 {
        filtered(s.skip(1))
    } else {
        seq![s[0]] + filtered(s.skip(1))
    }
}

/// The number of line-feed bytes in a span.
pub open spec fn line_feed_count(s: Seq<u8>) -> nat
    decreases s.len(),
{
    if s.len() == 0 {
        0
    } else if s[0] == 10u8 {
        1 + line_feed_count(s.skip(1))
    } else {
        line_feed_count(s.skip(1))
    }
}

/// Filtering a span filters each of its parts: `filtered` distributes over
/// concatenation.
pub proof fn lemma_filtered_add(a: Seq<u8>, b: Seq<u8>)
    ensures
        filtered(a + b) == filtered(a) + filtered(b),
    decreases a.len(),
{
    if a.len() == 0 {
        assert(a + b =~= b);
        assert(filtered(a) + filtered(b) =~= filtered(b));
    } else {
        assert((a + b).skip(1) =~= a.skip(1) + b);
        lemma_filtered_add(a.skip(1), b);
        if a[0] != 10u8 {
            assert(seq![a[0]] + (filtered(a.skip(1)) + filtered(b)) =~= (seq![a[0]] + filtered(
                a.skip(1),
            )) + filtered(b));
        }
    }
}

/// One filtering step at the end of a prefix: extending the prefix by one
/// byte keeps that byte exactly when it is not a line feed.
pub proof fn lemma_filtered_take_step(s: Seq<u8>, i: int)
    requires
        0 <= i < s.len(),
    ensures
        filtered(s.take(i + 1)) == if s[i] == 10u8 {
            filtered(s.take(i))
        } else {
            filtered(s.take(i)).push(s[i])
        },
{
    assert(s.take(i + 1) =~= s.take(i) + seq![s[i]]);
    lemma_filtered_add(s.take(i), seq![s[i]]);
    assert(seq![s[i]].skip(1) =~= Seq::<u8>::empty());
    assert(filtered(Seq::<u8>::empty()) =~= Seq::<u8>::empty());
    assert(filtered(seq![s[i]]) == if s[i] == 10u8 {
        Seq::<u8>::empty()
    } else {
        seq![s[i]] + Seq::<u8>::empty()
    });
    if s[i] == 10u8 {
        assert(filtered(s.take(i)) + Seq::<u8>::empty() =~= filtered(s.take(i)));
    } else {
        assert(filtered(s.take(i)) + seq![s[i]] =~= filtered(s.take(i)).push(s[i]));
    }
}

/// One filtering step at the front of a suffix: the suffix's first byte is
/// kept exactly when it is not a line feed.
pub proof fn lemma_filtered_skip_step(s: Seq<u8>, i: int)
    requires
        0 <= i < s.len(),
    ensures
        filtered(s.skip(i)) == if s[i] == 10u8 {
            filtered(s.skip(i + 1))
        } else {
            seq![s[i]] + filtered(s.skip(i + 1))
        },
{
    assert(s.skip(i).len() > 0);
    assert(s.skip(i)[0] == s[i]);
    assert(s.skip(i).skip(1) =~= s.skip(i + 1));
}

/// Filtering removes exactly the line feeds: the filtered span's length is
/// the raw length minus the number of line-feed bytes.
pub proof fn lemma_filtered_len(s: Seq<u8>)
    ensures
        filtered(s).len() + line_feed_count(s) == s.len(),
    decreases s.len(),
{
    if s.len() > 0 {
        lemma_filtered_len(s.skip(1));
    }
}

/// No line feed survives filtering.
pub proof fn lemma_filtered_no_line_feed(s: Seq<u8>)
    ensures
        forall|i: int| 0 <= i < filtered(s).len() ==> filtered(s)[i] != 10u8,
    decreases s.len(),
{
    if s.len() > 0 {
        lemma_filtered_no_line_feed(s.skip(1));
        assert forall|i: int| 0 <= i < filtered(s).len() implies filtered(s)[i] != 10u8 by {
            if s[0] == 10u8 {
                assert(filtered(s)[i] == filtered(s.skip(1))[i]);
            } else if i > 0 {
                assert(filtered(s)[i] == filtered(s.skip(1))[i - 1]);
            } else {
                assert(filtered(s)[0] == s[0]);
            }
        }
    }
}

/// The index of the first occurrence of `b` in `s` at or after `from`,
/// or `s.len()` if `b` does not occur at or after `from`.
pub open spec fn find_from(s: Seq<u8>, b: u8, from: int) -> int
    recommends
        0 <= from <= s.len(),
    decreases s.len() - from,
{
    if from >= s.len() {
        s.len() as int
    } else if s[from] == b {
        from
    } else {
        find_from(s, b, from + 1)
    }
}

/// `find_from` stays between its starting point and the end of the span.
pub proof fn lemma_find_from_bounds(s: Seq<u8>, b: u8, from: int)
    requires
        from <= s.len(),
    ensures
        from <= find_from(s, b, from) <= s.len(),
    decreases s.len() - from,
{
    if from < s.len() && s[from] != b {
        lemma_find_from_bounds(s, b, from + 1);
    }
}

/// `find_from` lands on `b` (unless `b` is absent), and nothing before it
/// at or after `from` is `b`.
pub proof fn lemma_find_from_is_first(s: Seq<u8>, b: u8, from: int)
    requires
        0 <= from <= s.len(),
    ensures
        from <= find_from(s, b, from) <= s.len(),
        find_from(s, b, from) < s.len() ==> s[find_from(s, b, from)] == b,
        forall|j: int| from <= j < find_from(s, b, from) ==> s[j] != b,
    decreases s.len() - from,
{
    if from < s.len() && s[from] != b {
        lemma_find_from_is_first(s, b, from + 1);
    }
}

/// Any position that is the first occurrence of `b` at or after `from`
/// (or the end of the span, when `b` is absent) is `find_from`'s answer.
pub proof fn lemma_find_from_unique(s: Seq<u8>, b: u8, from: int, k: int)
    requires
        0 <= from <= k <= s.len(),
        forall|j: int| from <= j < k ==> s[j] != b,
        k < s.len() ==> s[k] == b,
    ensures
        find_from(s, b, from) == k,
    decreases k - from,
{
    if from < k {
        lemma_find_from_unique(s, b, from + 1, k);
    }
}

/// The mathematical content of one parsed record: the bytes of its
/// description line and the raw bytes of its sequence body.
#[verifier::ext_equal]
pub struct RecordModel {
    /// Description bytes, without the leading `>` and the trailing newline.
    pub description: Seq<u8>,
    /// Raw sequence bytes, embedded line feeds included.
    pub sequence: Seq<u8>,
}

/// The records that scanning `data` yields from position `cursor` onward,
/// or the error that the scan stops with. `cursor` must sit on a record
/// boundary: at a `>` byte, or at the end of the buffer.
pub open spec fn spec_parse_from(data: Seq<u8>, cursor: int) -> Result<
    Seq<RecordModel>,
    ParseError,
>
    recommends
        0 <= cursor <= data.len(),
    decreases data.len() - cursor,
    via spec_parse_from_decreases
{
    if cursor >= data.len() {
        Ok(Seq::empty())
    } else if data[cursor] != 62u8 {
        Err(ParseError::InvalidDescription { invalid: data[cursor] })
    } else {
        let header_end = find_from(data, 10u8, cursor + 1);
        let seq_start = header_end + 1;
        if seq_start >= data.len() {
            Err(ParseError::EmptySequence)
        } else {
            let seq_end = find_from(data, 62u8, seq_start);
            if seq_end == seq_start {
                Err(ParseError::EmptySequence)
            } else {
                match spec_parse_from(data, seq_end) {
                    Ok(rest) => Ok(
                        seq![
                            RecordModel {
                                description: data.subrange(cursor + 1, header_end),
                                sequence: data.subrange(seq_start, seq_end),
                            },
                        ] + rest,
                    ),
                    Err(e) => Err(e),
                }
            }
        }
    }
}

#[via_fn]
proof fn spec_parse_from_decreases(data: Seq<u8>, cursor: int) {
    if cursor < data.len() && data[cursor] == 62u8 {
        lemma_find_from_bounds(data, 10u8, cursor + 1);
        let seq_start = find_from(data, 10u8, cursor + 1) + 1;
        if seq_start < data.len() {
            lemma_find_from_bounds(data, 62u8, seq_start);
        }
    }
}

/// The records that scanning the whole of `data` yields, or the error that
/// the scan stops with.
pub open spec fn spec_parse(data: Seq<u8>) -> Result<Seq<RecordModel>, ParseError> {
    spec_parse_from(data, 0)
}

} // verus!
