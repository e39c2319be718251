//! Splitting text into pieces of a fixed number of characters.

use vstd::prelude::*;
use crate::arith;
use crate::pre_tokenized::{NormalizedString, NormalizedView, PreTokenizedString, Split, SplitView};
use crate::utf8;

verus! {

/// Splits text into pieces of `length` characters. The last piece holds what
/// is left.
#[derive(Debug, PartialEq, Eq, Structural)]
pub struct FixedLength {
    pub length: usize,
}

impl Clone for FixedLength {
    fn clone(&self) -> (copy: Self)
        ensures
            copy == *self,
    {
        FixedLength { length: self.length }
    }
}

/// Byte range of piece number `k` of the text.
pub open spec fn segment(chars: Seq<char>, length: int, k: int) -> (int, int) {
    (
        utf8::byte_pos(chars, k * length),
        utf8::byte_pos(chars, piece_end(chars, length, k)),
    )
}

/// Number of pieces of the text.
pub open spec fn piece_count(chars: Seq<char>, length: int) -> int {
    if chars.len() == 0 {
        0
    } else {
        arith::ceil_div(chars.len() as int, length)
    }
}

/// The last character of piece number `k`, exclusive.
pub open spec fn piece_end(chars: Seq<char>, length: int, k: int) -> int {
    arith::min((k + 1) * length, chars.len() as int)
}

/// The pieces of a text: each takes `length` characters, and the last one what
/// is left.
pub open spec fn pieces(normalized: NormalizedView, length: int) -> Seq<NormalizedView> {
    Seq::new(
        piece_count(normalized.text, length) as nat,
        |k: int| normalized.cut(k * length, piece_end(normalized.text, length, k)),
    )
}

/// What a split is replaced by: its pieces, or the split itself where it has
/// been tokenized.
pub open spec fn split_pieces(split: SplitView, length: int) -> Seq<SplitView> {
    if split.tokens is Some {
        seq![split]
    } else {
        pieces(split.normalized, length).map_values(
            |piece: NormalizedView| SplitView { normalized: piece, tokens: None },
        )
    }
}

/// What all splits are replaced by, in their order.
pub open spec fn all_pieces(splits: Seq<SplitView>, length: int) -> Seq<SplitView>
    decreases splits.len(),
{
    if splits.len() == 0 {
        seq![]
    } else {
        all_pieces(splits.drop_last(), length) + split_pieces(splits.last(), length)
    }
}

/// Whether the splits can be cut to the given length: a length of 0 is of use
/// only where nothing is left to cut.
pub open spec fn can_cut(splits: Seq<SplitView>, length: int) -> bool {
    length > 0 || forall|i: int|
        0 <= i < splits.len() ==> (#[trigger] splits[i]).tokens is Some
            || splits[i].normalized.text.len() == 0
}

/// The text of a piece could not be taken from the text that it is part of.
#[derive(Debug, PartialEq, Eq, Structural)]
pub struct SliceError;

impl SliceError {
    /// The message of the error.
    pub fn message(&self) -> (message: String)
        ensures
            message@ == "Failed to slice normalized text"@,
    {
        "Failed to slice normalized text".to_owned()
    }
}

/// Piece number `k` starts inside the text and holds a character.
proof fn lemma_piece_bounds(chars: Seq<char>, length: int, k: int)
    requires
        length > 0,
        0 <= k < piece_count(chars, length),
    ensures
        0 <= k * length < piece_end(chars, length, k) <= chars.len(),
{
    arith::lemma_ceil_div(chars.len() as int, length);
    let count = arith::ceil_div(chars.len() as int, length);
    assert(0 <= k * length <= (count - 1) * length) by (nonlinear_arith)
        requires
            0 <= k <= count - 1,
            length > 0,
    ;
    assert((k + 1) * length == k * length + length) by (nonlinear_arith);
}

/// The length used where none is configured.
pub fn default_length() -> (length: usize)
    ensures
        length == 5,
{
    5
}

impl FixedLength {
    /// Splits into pieces of `length` characters.
    pub fn new(length: usize) -> (pre_tokenizer: Self)
        ensures
            pre_tokenizer.length == length,
    {
        FixedLength { length }
    }

    /// The byte ranges of the pieces of `text`.
    pub fn segments(&self, text: &str) -> (segments: Vec<(usize, usize)>)
        requires
            self.length > 0 || text@.len() == 0,
        ensures
            segments@.len() == piece_count(text@, self.length as int),
            forall|k: int|
                0 <= k < segments@.len() ==> (
                (#[trigger] segments@[k]).0 as int,
                segments@[k].1 as int,
                ) == segment(text@, self.length as int, k),
    {
        let ghost chars = text@;
        let ghost length = self.length as int;
        let len: usize = text.as_bytes().len();
        let mut segments: Vec<(usize, usize)> = Vec::new();
        if len == 0 {
            proof {
                if chars.len() > 0 {
                    utf8::lemma_byte_pos_monotonic(chars, 0, chars.len() as int);
                }
            }
            return segments;
        }
        let mut start: usize = 0;
        let mut pos: usize = 0;
        let mut count: usize = 0;
        proof {
            assert(chars.take(0) =~= Seq::<char>::empty());
            assert(0 * length == 0);
        }
        for c in iter: text.chars()
            invariant
                iter.seq() == chars,
                len == utf8::byte_len(chars),
                length == self.length,
                length > 0,
                count < length,
                iter.index() == segments@.len() * length + count,
                pos == utf8::byte_pos(chars, iter.index()),
                start == utf8::byte_pos(chars, segments@.len() * length),
                forall|k: int|
                    0 <= k < segments@.len() ==> (
                    (#[trigger] segments@[k]).0 as int,
                    segments@[k].1 as int,
                    ) == segment(chars, length, k),
        {
            let ghost n = iter.index();
            let ghost k = segments@.len() as int;
            proof {
                utf8::lemma_byte_pos_step(chars, n);
                utf8::lemma_byte_pos_monotonic(chars, n + 1, n + 1);
                assert((k + 1) * length == k * length + length) by (nonlinear_arith);
            }
            pos = pos + utf8::char_width(c);
            count = count + 1;
            if count == self.length {
                segments.push((start, pos));
                start = pos;
                count = 0;
            }
        }
        let ghost k = segments@.len() as int;
        proof {
            assert((k + 1) * length == k * length + length) by (nonlinear_arith);
            assert((k - 1) * length == k * length - length) by (nonlinear_arith);
            let q = if count > 0 { k + 1 } else { k };
            arith::lemma_ceil_div_unique(chars.len() as int, length, q);
        }
        if count > 0 {
            segments.push((start, pos));
        }
        segments
    }

    /// Cuts one text into its pieces.
    pub fn cut_pieces(&self, normalized: &NormalizedString) -> (cut: Result<
        Vec<NormalizedString>,
        SliceError,
    >)
        requires
            normalized@.wf(),
            self.length > 0 || normalized@.text.len() == 0,
        ensures
            cut matches Ok(cut) && {
                &&& cut@.map_values(|piece: NormalizedString| piece@) == pieces(
                    normalized@,
                    self.length as int,
                )
                &&& forall|i: int| 0 <= i < cut@.len() ==> (#[trigger] cut@[i])@.wf()
            },
    {
        let segments = self.segments(normalized.text.as_str());
        let ghost text = normalized@.text;
        let ghost length = self.length as int;
        let mut cut: Vec<NormalizedString> = Vec::with_capacity(segments.len());
        let mut k: usize = 0;
        while k < segments.len()
            invariant
                normalized@.wf(),
                text == normalized@.text,
                length == self.length,
                length > 0 || text.len() == 0,
                k <= segments@.len(),
                segments@.len() == piece_count(text, length),
                forall|k: int|
                    0 <= k < segments@.len() ==> (
                    (#[trigger] segments@[k]).0 as int,
                    segments@[k].1 as int,
                    ) == segment(text, length, k),
                cut@.len() == k,
                forall|i: int|
                    0 <= i < k ==> (#[trigger] cut@[i])@ == pieces(normalized@, length)[i],
                forall|i: int| 0 <= i < k ==> (#[trigger] cut@[i])@.wf(),
            decreases segments@.len() - k,
        {
            let (start, end): (usize, usize) = segments[k];
            let ghost from = k * length;
            let ghost to = piece_end(text, length, k as int);
            proof {
                lemma_piece_bounds(text, length, k as int);
                assert((start as int, end as int) == segment(text, length, k as int));
            }
            match normalized.slice(start, end) {
                Some(piece) => {
                    proof {
                        let (i, j) = choose|i: int, j: int|
                            #![trigger normalized@.cut(i, j)]
                            0 <= i < j <= text.len() && utf8::byte_pos(text, i) == start
                                && utf8::byte_pos(text, j) == end && piece@ == normalized@.cut(
                                i,
                                j,
                            );
                        utf8::lemma_byte_pos_injective(text, i, from);
                        utf8::lemma_byte_pos_injective(text, j, to);
                    }
                    cut.push(piece);
                },
                None => {
                    return Err(SliceError);
                },
            }
            k = k + 1;
        }
        assert(cut@.map_values(|piece: NormalizedString| piece@) =~= pieces(normalized@, length));
        Ok(cut)
    }

    /// Cuts every split that has not been tokenized into its pieces. The
    /// others stay as they are, and all keep their order.
    pub fn pre_tokenize(&self, pretokenized: &mut PreTokenizedString) -> (result: Result<
        (),
        SliceError,
    >)
        requires
            crate::pre_tokenized::splits_wf(old(pretokenized)@),
            can_cut(old(pretokenized)@, self.length as int),
        ensures
            result is Ok,
            crate::pre_tokenized::splits_wf(final(pretokenized)@),
            final(pretokenized)@ == all_pieces(old(pretokenized)@, self.length as int),
    {
        let ghost before = pretokenized@;
        let ghost length = self.length as int;
        let mut old_splits: Vec<Split> = Vec::new();
        std::mem::swap(&mut old_splits, &mut pretokenized.splits);
        let ghost old_seq = old_splits@;
        let mut splits: Vec<Split> = Vec::new();
        assert(before.take(0) =~= Seq::<SplitView>::empty());
        assert(splits@.map_values(|split: Split| split@) =~= Seq::<SplitView>::empty());
        for split in iter: old_splits
            invariant
                iter.seq() == old_seq,
                before == old_seq.map_values(|split: Split| split@),
                crate::pre_tokenized::splits_wf(before),
                can_cut(before, length),
                length == self.length,
                splits@.map_values(|split: Split| split@) == all_pieces(
                    before.take(iter.index()),
                    length,
                ),
                crate::pre_tokenized::splits_wf(splits@.map_values(|split: Split| split@)),
        {
            let ghost n = iter.index();
            let ghost done = splits@.map_values(|split: Split| split@);
            let ghost split_view = split@;
            proof {
                assert(before[n] == split@);
                assert(before.take(n + 1).drop_last() =~= before.take(n));
                assert(before.take(n + 1).last() == before[n]);
            }
            if split.tokens.is_some() {
                splits.push(split);
                assert(splits@.map_values(|split: Split| split@) =~= done + seq![split_view]);
            } else {
                let cut = match self.cut_pieces(&split.normalized) {
                    Ok(cut) => cut,
                    Err(error) => {
                        return Err(error);
                    },
                };
                let ghost own = split_pieces(split_view, length);
                let ghost cut_seq = cut@;
                proof {
                    assert(own =~= cut_seq.map_values(|piece: NormalizedString| piece@).map_values(
                        |piece: NormalizedView| SplitView { normalized: piece, tokens: None },
                    ));
                    assert(done + own.take(0) =~= done);
                }
                for piece in pieces_iter: cut
                    invariant
                        pieces_iter.seq() == cut_seq,
                        own.len() == cut_seq.len(),
                        forall|i: int|
                            0 <= i < cut_seq.len() ==> own[i] == (SplitView {
                                normalized: (#[trigger] cut_seq[i])@,
                                tokens: None,
                            }),
                        forall|i: int| 0 <= i < cut_seq.len() ==> (#[trigger] cut_seq[i])@.wf(),
                        splits@.map_values(|split: Split| split@) == done + own.take(
                            pieces_iter.index(),
                        ),
                        crate::pre_tokenized::splits_wf(
                            splits@.map_values(|split: Split| split@),
                        ),
                {
                    let ghost m = pieces_iter.index();
                    let ghost so_far = splits@.map_values(|split: Split| split@);
                    assert(piece == cut_seq[m]);
                    assert(own.take(m + 1) =~= own.take(m).push(own[m]));
                    splits.push(Split { normalized: piece, tokens: None });
                    assert(splits@.map_values(|split: Split| split@) =~= so_far.push(own[m]));
                    assert(splits@.map_values(|split: Split| split@) =~= done + own.take(m + 1));
                }
                assert(own.take(own.len() as int) =~= own);
            }
        }
        assert(before.take(before.len() as int) =~= before);
        pretokenized.splits = splits;
        Ok(())
    }
}

/// The texts of the given pieces, one after the other.
pub open spec fn joined_text(pieces: Seq<NormalizedView>) -> Seq<char>
    decreases pieces.len(),
{
    if pieces.len() == 0 {
        seq![]
    } else {
        joined_text(pieces.drop_last()) + pieces.last().text
    }
}

/// The alignments of the given pieces, one after the other.
pub open spec fn joined_alignments(pieces: Seq<NormalizedView>) -> Seq<(usize, usize)>
    decreases pieces.len(),
{
    if pieces.len() == 0 {
        seq![]
    } else {
        joined_alignments(pieces.drop_last()) + pieces.last().alignments
    }
}

/// Cutting loses nothing: the pieces, one after the other, are the text, and
/// every byte keeps its alignment.
pub proof fn law_pieces_join_to_the_text(normalized: NormalizedView, length: int)
    requires
        normalized.wf(),
        length > 0,
    ensures
        joined_text(pieces(normalized, length)) == normalized.text,
        joined_alignments(pieces(normalized, length)) == normalized.alignments,
{
    let text = normalized.text;
    let all = pieces(normalized, length);
    let count = piece_count(text, length);
    if text.len() == 0 {
        assert(normalized.alignments =~= Seq::empty());
    } else {
        arith::lemma_ceil_div(text.len() as int, length);
        lemma_joined_prefix(normalized, length, count);
        assert((count - 1) * length + length == count * length) by (nonlinear_arith);
        assert(piece_end(text, length, count - 1) == text.len());
        assert(all.take(count) =~= all);
        assert(text.take(text.len() as int) =~= text);
        assert(normalized.alignments.take(utf8::byte_len(text)) =~= normalized.alignments);
    }
}

/// The first `n` pieces join to the text up to the end of the last of them.
proof fn lemma_joined_prefix(normalized: NormalizedView, length: int, n: int)
    requires
        normalized.wf(),
        length > 0,
        0 <= n <= piece_count(normalized.text, length),
    ensures
        n == 0 ==> joined_text(pieces(normalized, length).take(n)).len() == 0 && joined_alignments(
            pieces(normalized, length).take(n),
        ).len() == 0,
        n > 0 ==> {
            let end = piece_end(normalized.text, length, n - 1);
            &&& joined_text(pieces(normalized, length).take(n)) == normalized.text.take(end)
            &&& joined_alignments(pieces(normalized, length).take(n))
                == normalized.alignments.take(utf8::byte_pos(normalized.text, end))
        },
    decreases n,
{
    let text = normalized.text;
    let all = pieces(normalized, length);
    if n > 0 {
        let start = (n - 1) * length;
        let end = piece_end(text, length, n - 1);
        lemma_piece_bounds(text, length, n - 1);
        lemma_joined_prefix(normalized, length, n - 1);
        assert(all.take(n).drop_last() =~= all.take(n - 1));
        assert(all.take(n).last() == normalized.cut(start, end));
        utf8::lemma_byte_pos_monotonic(text, start, end);
        if n == 1 {
            assert(start == 0);
            assert(text.take(0) =~= Seq::<char>::empty());
        } else {
            lemma_piece_bounds(text, length, n - 2);
            assert((n - 2 + 1) * length == start);
            assert(piece_end(text, length, n - 2) == start);
        }
        assert(joined_text(all.take(n)) =~= text.take(end));
        assert(joined_alignments(all.take(n)) =~= normalized.alignments.take(
            utf8::byte_pos(text, end),
        ));
    }
}

/// Every piece but the last holds `length` characters, and the last one at
/// least one and at most `length`. No piece is empty.
pub proof fn law_pieces_have_the_length(normalized: NormalizedView, length: int, k: int)
    requires
        length > 0,
        0 <= k < piece_count(normalized.text, length),
    ensures
        1 <= pieces(normalized, length)[k].text.len() <= length,
        k < piece_count(normalized.text, length) - 1 ==> pieces(normalized, length)[k].text.len()
            == length,
{
    let text = normalized.text;
    lemma_piece_bounds(text, length, k);
    assert((k + 1) * length == k * length + length) by (nonlinear_arith);
    if k + 1 < piece_count(text, length) {
        lemma_piece_bounds(text, length, k + 1);
    }
}

/// The byte ranges of the pieces follow one another without a gap, from the
/// start of the text to its end.
pub proof fn law_segments_are_contiguous(chars: Seq<char>, length: int, k: int)
    requires
        length > 0,
        0 <= k < piece_count(chars, length),
    ensures
        segment(chars, length, k).0 < segment(chars, length, k).1,
        k == 0 ==> segment(chars, length, k).0 == 0,
        k + 1 < piece_count(chars, length) ==> segment(chars, length, k).1 == segment(
            chars,
            length,
            k + 1,
        ).0,
        k + 1 == piece_count(chars, length) ==> segment(chars, length, k).1 == utf8::byte_len(
            chars,
        ),
{
    lemma_piece_bounds(chars, length, k);
    utf8::lemma_byte_pos_monotonic(chars, k * length, piece_end(chars, length, k));
    assert(chars.take(0) =~= Seq::<char>::empty());
    if k + 1 < piece_count(chars, length) {
        lemma_piece_bounds(chars, length, k + 1);
    } else {
        arith::lemma_ceil_div(chars.len() as int, length);
        assert(chars.take(chars.len() as int) =~= chars);
    }
}

/// The pieces of text that has not been changed keep track of where they are:
/// the offsets of a piece are its byte range.
pub proof fn law_offsets_of_unchanged_text(text: Seq<char>, offsets: (usize, usize), length: int, k: int)
    requires
        utf8::byte_len(text) <= usize::MAX,
        length > 0,
        0 <= k < piece_count(text, length),
    ensures
        ({
            let unchanged = NormalizedView {
                text,
                alignments: crate::pre_tokenized::identity_alignments(text),
                offsets,
            };
            let piece = pieces(unchanged, length)[k];
            (piece.offsets.0 as int, piece.offsets.1 as int) == segment(text, length, k)
        }),
{
    let end = piece_end(text, length, k);
    lemma_piece_bounds(text, length, k);
    crate::pre_tokenized::lemma_identity_alignment(text, k * length);
    crate::pre_tokenized::lemma_identity_alignment(text, end - 1);
}

/// There are as many pieces as it takes to hold the text, and no more.
pub proof fn law_pieces_are_as_many_as_needed(normalized: NormalizedView, length: int)
    requires
        length > 0,
    ensures
        ({
            let count = pieces(normalized, length).len() as int;
            (count - 1) * length < normalized.text.len() <= count * length
        }),
{
    let len = normalized.text.len() as int;
    if len > 0 {
        arith::lemma_ceil_div(len, length);
    } else {
        assert((0 - 1) * length < 0 && 0 * length == 0) by (nonlinear_arith)
            requires
                length > 0,
        ;
    }
}

/// A piece stands for what lies between the start of its first byte's range in
/// the original text and the end of its last byte's, and its byte range holds its
/// text.
pub proof fn law_pieces_keep_their_place(normalized: NormalizedView, length: int, k: int)
    requires
        normalized.wf(),
        length > 0,
        0 <= k < pieces(normalized, length).len(),
    ensures
        ({
            let piece = pieces(normalized, length)[k];
            let (start, end) = segment(normalized.text, length, k);
            &&& piece.wf()
            &&& piece.offsets == (piece.alignments[0].0, piece.alignments.last().1)
            &&& 0 <= start < end <= normalized.alignments.len()
            &&& vstd::utf8::encode_utf8(normalized.text).subrange(start, end)
                == vstd::utf8::encode_utf8(piece.text)
            &&& normalized.alignments.subrange(start, end) == piece.alignments
        }),
{
    let text = normalized.text;
    let end = piece_end(text, length, k);
    lemma_piece_bounds(text, length, k);
    utf8::lemma_encode_subrange(text, k * length, end);
    utf8::lemma_byte_pos_monotonic(text, k * length, end);
}

/// A split that has not been tokenized is cut into exactly the pieces of its
/// text, whatever its offsets and alignments. A split that has been tokenized
/// stays as it is.
pub proof fn law_every_split_is_cut(split: SplitView, length: int)
    ensures
        split.tokens is Some ==> all_pieces(seq![split], length) == seq![split],
        split.tokens is None ==> {
            let cut = all_pieces(seq![split], length);
            &&& cut.len() == pieces(split.normalized, length).len()
            &&& forall|k: int|
                0 <= k < cut.len() ==> (#[trigger] cut[k]).tokens is None && cut[k].normalized
                    == pieces(split.normalized, length)[k]
        },
{
    assert(seq![split].drop_last() =~= seq![]);
    reveal_with_fuel(all_pieces, 2);
    assert(all_pieces(seq![split], length) =~= split_pieces(split, length));
}

/// Any splits can be cut to a length of one or more.
pub proof fn law_any_splits_can_be_cut(splits: Seq<SplitView>, length: int)
    requires
        length > 0,
    ensures
        can_cut(splits, length),
{
}

/// Splits are cut one by one, and keep their order: what is cut from two groups
/// of splits together is what is cut from the one and then what is cut from the
/// other.
pub proof fn law_splits_are_cut_one_by_one(a: Seq<SplitView>, b: Seq<SplitView>, length: int)
    ensures
        all_pieces(a + b, length) == all_pieces(a, length) + all_pieces(b, length),
        all_pieces(seq![], length).len() == 0,
{
    lemma_all_pieces_concat(a, b, length);
}

/// Once splits have been cut, none that has no tokens is empty or holds more than
/// `length` characters.
pub proof fn law_no_split_is_longer_than_the_length(splits: Seq<SplitView>, length: int, i: int)
    requires
        length > 0,
        0 <= i < all_pieces(splits, length).len(),
        all_pieces(splits, length)[i].tokens is None,
    ensures
        1 <= all_pieces(splits, length)[i].normalized.text.len() <= length,
    decreases splits.len(),
{
    let rest = all_pieces(splits.drop_last(), length);
    let own = split_pieces(splits.last(), length);
    if i < rest.len() {
        law_no_split_is_longer_than_the_length(splits.drop_last(), length, i);
    } else {
        assert(all_pieces(splits, length)[i] == own[i - rest.len()]);
        law_pieces_have_the_length(splits.last().normalized, length, i - rest.len());
    }
}

/// The texts of the given splits, one after the other.
pub open spec fn joined_splits(splits: Seq<SplitView>) -> Seq<char>
    decreases splits.len(),
{
    if splits.len() == 0 {
        seq![]
    } else {
        joined_splits(splits.drop_last()) + splits.last().normalized.text
    }
}

/// Cutting splits loses no text: what is cut from them joins to what they joined
/// to before.
pub proof fn law_cutting_keeps_the_text(splits: Seq<SplitView>, length: int)
    requires
        crate::pre_tokenized::splits_wf(splits),
        length > 0,
    ensures
        joined_splits(all_pieces(splits, length)) == joined_splits(splits),
    decreases splits.len(),
{
    if splits.len() > 0 {
        let split = splits.last();
        let rest = all_pieces(splits.drop_last(), length);
        let own = split_pieces(split, length);
        assert(splits[splits.len() - 1].normalized.wf());
        law_cutting_keeps_the_text(splits.drop_last(), length);
        lemma_joined_concat(rest, own);
        if split.tokens is Some {
            assert(seq![split].drop_last() =~= seq![]);
            reveal_with_fuel(joined_splits, 2);
            assert(joined_splits(own) =~= split.normalized.text);
        } else {
            let cut = pieces(split.normalized, length);
            law_pieces_join_to_the_text(split.normalized, length);
            lemma_joined_pieces(cut);
        }
    }
}

proof fn lemma_joined_concat(a: Seq<SplitView>, b: Seq<SplitView>)
    ensures
        joined_splits(a + b) == joined_splits(a) + joined_splits(b),
    decreases b.len(),
{
    if b.len() == 0 {
        assert(a + b =~= a);
        assert(joined_splits(a) + joined_splits(b) =~= joined_splits(a));
    } else {
        assert((a + b).drop_last() =~= a + b.drop_last());
        lemma_joined_concat(a, b.drop_last());
        assert(joined_splits(a + b) =~= joined_splits(a) + joined_splits(b));
    }
}

proof fn lemma_joined_pieces(cut: Seq<NormalizedView>)
    ensures
        joined_splits(
            cut.map_values(|piece: NormalizedView| SplitView { normalized: piece, tokens: None }),
        ) == joined_text(cut),
    decreases cut.len(),
{
    let splits = cut.map_values(
        |piece: NormalizedView| SplitView { normalized: piece, tokens: None },
    );
    if cut.len() > 0 {
        lemma_joined_pieces(cut.drop_last());
        assert(splits.drop_last() =~= cut.drop_last().map_values(
            |piece: NormalizedView| SplitView { normalized: piece, tokens: None },
        ));
    }
}

/// Cutting what has been cut to the same length changes nothing.
pub proof fn law_cutting_twice_is_cutting_once(splits: Seq<SplitView>, length: int)
    requires
        crate::pre_tokenized::splits_wf(splits),
        length > 0,
    ensures
        all_pieces(all_pieces(splits, length), length) == all_pieces(splits, length),
    decreases splits.len(),
{
    if splits.len() > 0 {
        let rest = splits.drop_last();
        let own = split_pieces(splits.last(), length);
        law_cutting_twice_is_cutting_once(rest, length);
        lemma_all_pieces_concat(all_pieces(rest, length), own, length);
        assert(splits[splits.len() - 1].normalized.wf());
        assert forall|i: int| 0 <= i < own.len() implies #[trigger] split_pieces(own[i], length)
            == seq![own[i]] by {
            if splits.last().tokens is None {
                lemma_piece_is_its_only_piece(splits.last().normalized, length, i);
                assert(split_pieces(own[i], length) =~= seq![own[i]]);
            }
        }
        lemma_all_pieces_fixed(own, length);
    }
}

proof fn lemma_piece_is_its_only_piece(normalized: NormalizedView, length: int, k: int)
    requires
        normalized.wf(),
        length > 0,
        0 <= k < piece_count(normalized.text, length),
    ensures
        pieces(pieces(normalized, length)[k], length) == seq![pieces(normalized, length)[k]],
{
    let text = normalized.text;
    let piece = pieces(normalized, length)[k];
    let start = k * length;
    let end = piece_end(text, length, k);
    lemma_piece_bounds(text, length, k);
    law_pieces_have_the_length(normalized, length, k);
    utf8::lemma_encode_subrange(text, start, end);
    utf8::lemma_byte_pos_monotonic(text, start, end);
    let n = piece.text.len() as int;
    assert((1 - 1) * length < n <= 1 * length);
    arith::lemma_ceil_div_unique(n, length, 1);
    assert(0 * length == 0);
    assert((0 + 1) * length == length);
    assert(piece.text.take(0) =~= Seq::<char>::empty());
    assert(piece.text.take(n) =~= piece.text);
    assert(piece.text.subrange(0, n) =~= piece.text);
    assert(piece.cut(0, n) =~= piece);
    assert(pieces(piece, length) =~= seq![piece]);
}

proof fn lemma_all_pieces_fixed(splits: Seq<SplitView>, length: int)
    requires
        forall|i: int|
            0 <= i < splits.len() ==> #[trigger] split_pieces(splits[i], length) == seq![splits[i]],
    ensures
        all_pieces(splits, length) == splits,
    decreases splits.len(),
{
    if splits.len() > 0 {
        let rest = splits.drop_last();
        assert forall|i: int| 0 <= i < rest.len() implies #[trigger] split_pieces(rest[i], length)
            == seq![rest[i]] by {
            assert(rest[i] == splits[i]);
        }
        lemma_all_pieces_fixed(rest, length);
        assert(split_pieces(splits[splits.len() - 1], length) == seq![splits.last()]);
        assert(all_pieces(splits, length) =~= splits);
    } else {
        assert(all_pieces(splits, length) =~= splits);
    }
}

proof fn lemma_all_pieces_concat(a: Seq<SplitView>, b: Seq<SplitView>, length: int)
    ensures
        all_pieces(a + b, length) == all_pieces(a, length) + all_pieces(b, length),
    decreases b.len(),
{
    if b.len() == 0 {
        assert(a + b =~= a);
        assert(all_pieces(a, length) + all_pieces(b, length) =~= all_pieces(a, length));
    } else {
        assert((a + b).drop_last() =~= a + b.drop_last());
        lemma_all_pieces_concat(a, b.drop_last(), length);
        assert(all_pieces(a + b, length) =~= all_pieces(a, length) + all_pieces(b, length));
    }
}

} // verus!
