//! Text on its way to a tokenizer: normalized, then split, then tokenized.

use vstd::prelude::*;
use crate::utf8;

verus! {

/// Normalized text that knows where it came from.
pub struct NormalizedString {
    /// The normalized text.
    pub text: String,
    /// For each byte of the normalized text, the range of bytes of the
    /// original text that it stands for.
    pub alignments: Vec<(usize, usize)>,
    /// The range of bytes of the original text that the whole text stands for.
    pub offsets: (usize, usize),
}

/// What a [`NormalizedString`] holds.
#[verifier::ext_equal]
pub struct NormalizedView {
    pub text: Seq<char>,
    pub alignments: Seq<(usize, usize)>,
    pub offsets: (usize, usize),
}

impl View for NormalizedString {
    type V = NormalizedView;

    open spec fn view(&self) -> NormalizedView {
        NormalizedView {
            text: self.text@,
            alignments: self.alignments@,
            offsets: self.offsets,
        }
    }
}

impl NormalizedView {
    /// Every byte of the text has its alignment.
    pub open spec fn wf(self) -> bool {
        self.alignments.len() == utf8::byte_len(self.text)
    }

    /// The part of the text from character `i` up to character `j`.
    pub open spec fn cut(self, i: int, j: int) -> NormalizedView {
        let start = utf8::byte_pos(self.text, i);
        let end = utf8::byte_pos(self.text, j);
        NormalizedView {
            text: self.text.subrange(i, j),
            alignments: self.alignments.subrange(start, end),
            offsets: (self.alignments[start].0, self.alignments[end - 1].1),
        }
    }
}

/// For each byte of `text`, the range of bytes of the character that it is
/// part of.
pub open spec fn identity_alignments(text: Seq<char>) -> Seq<(usize, usize)>
    decreases text.len(),
{
    if text.len() == 0 {
        seq![]
    } else {
        let last = text.len() - 1;
        let start = utf8::byte_pos(text, last);
        let end = utf8::byte_len(text);
        identity_alignments(text.drop_last()) + Seq::new(
            (end - start) as nat,
            |k: int| (start as usize, end as usize),
        )
    }
}

/// The first and the last byte of character `i` are aligned with the byte range
/// of the character.
pub proof fn lemma_identity_alignment(text: Seq<char>, i: int)
    requires
        0 <= i < text.len(),
        utf8::byte_len(text) <= usize::MAX,
    ensures
        identity_alignments(text).len() == utf8::byte_len(text),
        identity_alignments(text)[utf8::byte_pos(text, i)].0 == utf8::byte_pos(text, i),
        identity_alignments(text)[utf8::byte_pos(text, i + 1) - 1].1 == utf8::byte_pos(text, i + 1),
    decreases text.len(),
{
    let rest = text.drop_last();
    let last = text.len() - 1;
    assert(text.take(last) =~= rest);
    utf8::lemma_byte_pos_monotonic(text, last, last + 1);
    if rest.len() > 0 {
        let j = if i < last { i } else { 0 };
        lemma_identity_alignment(rest, j);
    } else {
        assert(rest =~= Seq::<char>::empty());
    }
    if i < last {
        assert(rest.take(i) =~= text.take(i));
        assert(rest.take(i + 1) =~= text.take(i + 1));
        utf8::lemma_byte_pos_monotonic(text, i, i + 1);
        utf8::lemma_byte_pos_monotonic(text, i + 1, last);
    }
}

/// Text that has not been changed is aligned with itself: every byte of a
/// character is aligned with the byte range of that character.
pub proof fn law_unchanged_text_is_aligned_with_itself(text: Seq<char>, i: int, b: int)
    requires
        0 <= i < text.len(),
        utf8::byte_len(text) <= usize::MAX,
        utf8::byte_pos(text, i) <= b < utf8::byte_pos(text, i + 1),
    ensures
        identity_alignments(text).len() == utf8::byte_len(text),
        identity_alignments(text)[b].0 == utf8::byte_pos(text, i),
        identity_alignments(text)[b].1 == utf8::byte_pos(text, i + 1),
    decreases text.len(),
{
    let rest = text.drop_last();
    let last = text.len() - 1;
    assert(text.take(last) =~= rest);
    lemma_identity_alignment(text, i);
    utf8::lemma_byte_pos_monotonic(text, last, last + 1);
    if i < last {
        assert(rest.take(i) =~= text.take(i));
        assert(rest.take(i + 1) =~= text.take(i + 1));
        utf8::lemma_byte_pos_monotonic(text, i + 1, last);
        law_unchanged_text_is_aligned_with_itself(rest, i, b);
    } else if rest.len() > 0 {
        lemma_identity_alignment(rest, 0);
    }
}

/// A part of a text holds its characters, each byte with its alignment, and
/// stands for what lies between the start of its first byte's range and the end
/// of its last byte's. Two parts that meet join to the part that spans both.
pub proof fn law_parts_keep_their_alignments(normalized: NormalizedView, i: int, j: int, k: int)
    requires
        normalized.wf(),
        0 <= i < j < k <= normalized.text.len(),
    ensures
        normalized.cut(i, j).wf(),
        normalized.cut(i, j).text.len() == j - i,
        normalized.cut(i, j).offsets == (
            normalized.cut(i, j).alignments[0].0,
            normalized.cut(i, j).alignments.last().1,
        ),
        normalized.cut(i, j).text + normalized.cut(j, k).text == normalized.cut(i, k).text,
        normalized.cut(i, j).alignments + normalized.cut(j, k).alignments == normalized.cut(
            i,
            k,
        ).alignments,
        normalized.cut(0, normalized.text.len() as int).text == normalized.text,
        normalized.cut(0, normalized.text.len() as int).alignments == normalized.alignments,
{
    let text = normalized.text;
    let len = text.len() as int;
    utf8::lemma_encode_subrange(text, i, j);
    utf8::lemma_byte_pos_monotonic(text, i, j);
    utf8::lemma_byte_pos_monotonic(text, j, k);
    assert(text.take(0) =~= Seq::<char>::empty());
    assert(normalized.cut(i, j).text + normalized.cut(j, k).text =~= normalized.cut(i, k).text);
    assert(normalized.cut(i, j).alignments + normalized.cut(j, k).alignments =~= normalized.cut(
        i,
        k,
    ).alignments);
    assert(normalized.cut(0, len).text =~= text);
    assert(normalized.cut(0, len).alignments =~= normalized.alignments);
}

impl NormalizedString {
    /// Text that has not been changed.
    pub fn new(text: &str) -> (normalized: Self)
        ensures
            normalized@ == (NormalizedView {
                text: text@,
                alignments: identity_alignments(text@),
                offsets: (0, utf8::byte_len(text@) as usize),
            }),
            normalized@.wf(),
            utf8::byte_len(text@) <= usize::MAX,
    {
        let len: usize = text.as_bytes().len();
        let ghost chars = text@;
        let mut alignments: Vec<(usize, usize)> = Vec::with_capacity(len);
        let mut start: usize = 0;
        assert(chars.take(0) =~= Seq::<char>::empty());
        for c in iter: text.chars()
            invariant
                iter.seq() == chars,
                len == utf8::byte_len(chars),
                start == utf8::byte_pos(chars, iter.index()),
                alignments@ == identity_alignments(chars.take(iter.index())),
                alignments@.len() == start,
        {
            let ghost n = iter.index();
            proof {
                utf8::lemma_byte_pos_step(chars, n);
                utf8::lemma_byte_pos_monotonic(chars, n + 1, n + 1);
                assert(chars.take(n + 1).drop_last() =~= chars.take(n));
                assert(chars.take(n + 1).take(n) =~= chars.take(n));
            }
            let end: usize = start + utf8::char_width(c);
            let ghost before = alignments@;
            let mut k: usize = start;
            while k < end
                invariant
                    start <= k <= end,
                    alignments@ == before + Seq::new((k - start) as nat, |k: int| (start, end)),
                decreases end - k,
            {
                alignments.push((start, end));
                k = k + 1;
            }
            assert(alignments@ =~= identity_alignments(chars.take(n + 1)));
            start = end;
        }
        assert(chars.take(chars.len() as int) =~= chars);
        NormalizedString { text: text.to_owned(), alignments, offsets: (0, len) }
    }

    /// The part of the text between two byte positions, or `None` where it
    /// would be empty, reach past the end or cut a character.
    pub fn slice(&self, start: usize, end: usize) -> (part: Option<NormalizedString>)
        requires
            self@.wf(),
        ensures
            match part {
                Some(part) => part@.wf() && exists|i: int, j: int|
                    #![trigger self@.cut(i, j)]
                    0 <= i < j <= self@.text.len() && utf8::byte_pos(self@.text, i) == start
                        && utf8::byte_pos(self@.text, j) == end && part@ == self@.cut(i, j),
                None => forall|i: int, j: int|
                    0 <= i < j <= self@.text.len() ==> !(#[trigger] utf8::byte_pos(self@.text, i)
                        == start && #[trigger] utf8::byte_pos(self@.text, j) == end),
            },
    {
        match utf8::slice_text(self.text.as_str(), start, end) {
            Some(text) => {
                let ghost chars = self.text@;
                let ghost (i, j) = choose|i: int, j: int|
                    #![trigger chars.subrange(i, j)]
                    0 <= i < j <= chars.len() && utf8::byte_pos(chars, i) == start
                        && utf8::byte_pos(chars, j) == end && text@ == chars.subrange(i, j);
                proof {
                    utf8::lemma_encode_subrange(chars, i, j);
                    utf8::lemma_byte_pos_monotonic(chars, i, j);
                }
                let mut alignments: Vec<(usize, usize)> = Vec::with_capacity(end - start);
                let mut k: usize = start;
                while k < end
                    invariant
                        start <= k <= end <= self.alignments@.len(),
                        alignments@ == self.alignments@.subrange(start as int, k as int),
                    decreases end - k,
                {
                    alignments.push(self.alignments[k]);
                    k = k + 1;
                }
                let offsets: (usize, usize) = (self.alignments[start].0, self.alignments[end - 1].1);
                let part = NormalizedString { text: text.to_owned(), alignments, offsets };
                assert(part@ =~= self@.cut(i, j));
                Some(part)
            },
            None => None,
        }
    }
}

/// A token.
#[derive(Debug, PartialEq, Eq)]
pub struct Token {
    pub id: u32,
    pub value: String,
    pub offsets: (usize, usize),
}

/// A part of the text, with its tokens once it has been tokenized.
pub struct Split {
    pub normalized: NormalizedString,
    pub tokens: Option<Vec<Token>>,
}

/// What a [`Split`] holds.
#[verifier::ext_equal]
pub struct SplitView {
    pub normalized: NormalizedView,
    pub tokens: Option<Vec<Token>>,
}

impl View for Split {
    type V = SplitView;

    open spec fn view(&self) -> SplitView {
        SplitView { normalized: self.normalized@, tokens: self.tokens }
    }
}

/// Text that is split further and further before it is tokenized.
pub struct PreTokenizedString {
    pub splits: Vec<Split>,
}

impl View for PreTokenizedString {
    type V = Seq<SplitView>;

    open spec fn view(&self) -> Seq<SplitView> {
        self.splits@.map_values(|split: Split| split@)
    }
}

/// Whether every byte of every split has its alignment.
pub open spec fn splits_wf(splits: Seq<SplitView>) -> bool {
    forall|i: int| 0 <= i < splits.len() ==> (#[trigger] splits[i]).normalized.wf()
}

impl PreTokenizedString {
    /// Text that has neither been changed nor split.
    pub fn new(text: &str) -> (pre_tokenized: Self)
        ensures
            pre_tokenized@ == seq![
                SplitView {
                    normalized: NormalizedView {
                        text: text@,
                        alignments: identity_alignments(text@),
                        offsets: (0, utf8::byte_len(text@) as usize),
                    },
                    tokens: None,
                },
            ],
            splits_wf(pre_tokenized@),
            utf8::byte_len(text@) <= usize::MAX,
    {
        let mut splits: Vec<Split> = Vec::with_capacity(1);
        splits.push(Split { normalized: NormalizedString::new(text), tokens: None });
        PreTokenizedString { splits }
    }

    /// The text of each split, the range of bytes of the original text that it
    /// stands for, and its tokens.
    pub fn get_splits(&self) -> (splits: Vec<(&str, (usize, usize), &Option<Vec<Token>>)>)
        ensures
            splits@.len() == self@.len(),
            forall|i: int|
                0 <= i < splits@.len() ==> (#[trigger] splits@[i]).0@ == self@[i].normalized.text
                    && splits@[i].1 == self@[i].normalized.offsets && *splits@[i].2
                    == self@[i].tokens,
    {
        let mut splits: Vec<(&str, (usize, usize), &Option<Vec<Token>>)> = Vec::with_capacity(
            self.splits.len(),
        );
        let mut i: usize = 0;
        while i < self.splits.len()
            invariant
                i <= self.splits@.len(),
                splits@.len() == i,
                forall|j: int|
                    0 <= j < i ==> (#[trigger] splits@[j]).0@ == self@[j].normalized.text
                        && splits@[j].1 == self@[j].normalized.offsets && *splits@[j].2
                        == self@[j].tokens,
            decreases self.splits@.len() - i,
        {
            let split = &self.splits[i];
            splits.push(
                (split.normalized.text.as_str(), split.normalized.offsets, &split.tokens),
            );
            i = i + 1;
        }
        splits
    }
}

} // verus!
