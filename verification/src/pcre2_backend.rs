//! The decisions of a regex engine on top of PCRE2.
//!
//! PCRE2 compiles patterns and finds matches. What to ask of it, and what to
//! make of its answers, is decided here.

use vstd::prelude::*;
use vstd::utf8::*;
use crate::decimal;

verus! {

/// Why a regex could not be built.
#[derive(Debug, PartialEq, Eq, Structural)]
pub enum RegexError {
    /// The pattern holds a nul byte at this position.
    NulByte { position: usize },
    /// PCRE2 did not compile the pattern.
    Compile { offset: usize, code: i32 },
    /// PCRE2 did not compile the pattern to machine code.
    Jit { code: i32 },
}

impl RegexError {
    /// What the message of the error says.
    pub open spec fn message_text(self) -> Seq<char> {
        match self {
            RegexError::NulByte { position } => "nul byte found in provided data at position: "@
                + decimal::number_text(position as int),
            RegexError::Compile { offset, code } => "pcre2_compile failed at offset "@
                + decimal::number_text(offset as int) + " with error "@ + decimal::number_text(
                code as int,
            ),
            RegexError::Jit { code } => "pcre2_jit_compile failed with error "@
                + decimal::number_text(code as int),
        }
    }

    /// The message of the error.
    pub fn message(&self) -> (message: String)
        ensures
            message@ == self.message_text(),
    {
        let mut message = String::new();
        match self {
            RegexError::NulByte { position } => {
                message.append("nul byte found in provided data at position: ");
                decimal::append_digits(&mut message, *position as u64);
            },
            RegexError::Compile { offset, code } => {
                message.append("pcre2_compile failed at offset ");
                decimal::append_digits(&mut message, *offset as u64);
                message.append(" with error ");
                decimal::append_number(&mut message, *code as i64);
            },
            RegexError::Jit { code } => {
                message.append("pcre2_jit_compile failed with error ");
                decimal::append_number(&mut message, *code as i64);
            },
        }
        assert(message@ =~= self.message_text());
        message
    }
}

/// What building a regex does next.
#[derive(Debug, PartialEq, Eq, Structural)]
pub enum BuildStep {
    /// Compile the pattern.
    Compile,
    /// Compile the code to machine code.
    JitCompile,
    /// The code can be used.
    Ready,
    /// Give up, and free the code that the pattern was compiled to, if it was.
    Fail { error: RegexError, free_code: bool },
}

/// A message is the same for all errors of its kind, but for the numbers in it,
/// which are those of the error in decimal.
pub proof fn law_messages_hold_the_numbers_of_the_error(position: usize, offset: usize, code: i32)
    ensures
        (RegexError::NulByte { position }).message_text()
            == "nul byte found in provided data at position: "@ + decimal::digits_of(
            position as nat,
        ),
        (RegexError::Compile { offset, code }).message_text() == "pcre2_compile failed at offset "@
            + decimal::digits_of(offset as nat) + " with error "@ + decimal::number_text(code as int),
        (RegexError::Jit { code }).message_text() == "pcre2_jit_compile failed with error "@
            + decimal::number_text(code as int),
{
}

/// Position of the first nul byte.
pub open spec fn first_nul(bytes: Seq<u8>) -> Option<usize>
    decreases bytes.len(),
{
    if bytes.len() == 0 {
        None
    } else {
        match first_nul(bytes.drop_last()) {
            Some(position) => Some(position),
            None => if bytes.last() == 0 {
                Some((bytes.len() - 1) as usize)
            } else {
                None
            },
        }
    }
}

/// Starts to build a regex: the pattern is compiled, unless it holds a nul
/// byte.
pub fn start_build(pattern: &str) -> (step: BuildStep)
    ensures
        step == match first_nul(encode_utf8(pattern@)) {
            Some(position) => BuildStep::Fail {
                error: RegexError::NulByte { position },
                free_code: false,
            },
            None => BuildStep::Compile,
        },
{
    let bytes = pattern.as_bytes();
    let mut i: usize = 0;
    assert(bytes@.take(0) =~= Seq::<u8>::empty());
    while i < bytes.len()
        invariant
            i <= bytes@.len(),
            bytes@ == encode_utf8(pattern@),
            first_nul(bytes@.take(i as int)) is None,
        decreases bytes@.len() - i,
    {
        assert(bytes@.take(i + 1).drop_last() =~= bytes@.take(i as int));
        if bytes[i] == 0 {
            proof {
                lemma_first_nul_is_first(bytes@, i + 1);
            }
            return BuildStep::Fail {
                error: RegexError::NulByte { position: i },
                free_code: false,
            };
        }
        i = i + 1;
    }
    assert(bytes@.take(bytes@.len() as int) =~= bytes@);
    BuildStep::Compile
}

/// More bytes do not move the first nul byte.
proof fn lemma_first_nul_is_first(bytes: Seq<u8>, n: int)
    requires
        0 <= n <= bytes.len(),
        first_nul(bytes.take(n)) is Some,
    ensures
        first_nul(bytes) == first_nul(bytes.take(n)),
    decreases bytes.len(),
{
    if n == bytes.len() {
        assert(bytes.take(n) =~= bytes);
    } else {
        assert(bytes.drop_last().take(n) =~= bytes.take(n));
        lemma_first_nul_is_first(bytes.drop_last(), n);
    }
}

/// The position of the first nul byte is that of a nul byte, and there is none
/// before it. Where there is no position, there is no nul byte.
pub proof fn law_first_nul_is_the_first(bytes: Seq<u8>)
    requires
        bytes.len() <= usize::MAX,
    ensures
        match first_nul(bytes) {
            Some(position) => {
                &&& position < bytes.len()
                &&& bytes[position as int] == 0
                &&& forall|i: int| 0 <= i < position ==> #[trigger] bytes[i] != 0
            },
            None => forall|i: int| 0 <= i < bytes.len() ==> #[trigger] bytes[i] != 0,
        },
    decreases bytes.len(),
{
    if bytes.len() > 0 {
        let rest = bytes.drop_last();
        law_first_nul_is_the_first(rest);
        assert(forall|i: int| 0 <= i < rest.len() ==> #[trigger] bytes[i] == rest[i]);
    }
}

/// Goes on after compiling the pattern, which gave code or, at `offset`, the
/// error `code`.
pub fn after_compile(compiled: bool, code: i32, offset: usize) -> (step: BuildStep)
    ensures
        step == if compiled {
            BuildStep::JitCompile
        } else {
            BuildStep::Fail { error: RegexError::Compile { offset, code }, free_code: false }
        },
{
    if compiled {
        BuildStep::JitCompile
    } else {
        BuildStep::Fail { error: RegexError::Compile { offset, code }, free_code: false }
    }
}

/// Goes on after compiling to machine code, which returned `code`.
pub fn after_jit_compile(code: i32) -> (step: BuildStep)
    ensures
        step == if code == 0 {
            BuildStep::Ready
        } else {
            BuildStep::Fail { error: RegexError::Jit { code }, free_code: true }
        },
{
    if code != 0 {
        BuildStep::Fail { error: RegexError::Jit { code }, free_code: true }
    } else {
        BuildStep::Ready
    }
}

/// Whether an attempt that returned `code` found a match, whose bounds can then
/// be read.
pub fn is_match(code: i32) -> (found: bool)
    ensures
        found == (code >= 1),
{
    code >= 1
}

/// Where the search for the next match starts, in a text of `len` bytes. It
/// starts at `last`, as long as that is not past the end.
pub open spec fn search_start(len: int, last: int) -> Option<usize> {
    if last > len {
        None
    } else {
        Some(last as usize)
    }
}

/// Where the search goes on after a match: at its end, or one byte further
/// where the match is empty.
pub open spec fn search_after(start: int, end: int) -> int {
    if start == end {
        end + 1
    } else {
        end
    }
}

/// The successive matches in a text.
pub struct Matches {
    len: usize,
    last: usize,
}

impl Matches {
    /// Length of the text in bytes.
    pub closed spec fn text_len(&self) -> int {
        self.len as int
    }

    /// Where the next search starts.
    pub closed spec fn position(&self) -> int {
        self.last as int
    }

    /// The matches in a text of `len` bytes, from its start.
    pub fn new(len: usize) -> (matches: Self)
        ensures
            matches.text_len() == len,
            matches.position() == 0,
    {
        Matches { len, last: 0 }
    }

    /// Where to search for the next match, or `None` where there is none left.
    pub fn next_search(&self) -> (start: Option<usize>)
        ensures
            start == search_start(self.text_len(), self.position()),
            start is Some <==> self.position() <= self.text_len(),
            start matches Some(start) ==> start == self.position(),
    {
        if self.last > self.len {
            None
        } else {
            Some(self.last)
        }
    }

    /// Takes what the search found, and returns it.
    pub fn record(&mut self, found: Option<(usize, usize)>) -> (next: Option<(usize, usize)>)
        requires
            found matches Some((start, end)) ==> start == end ==> end < usize::MAX,
        ensures
            next == found,
            final(self).text_len() == old(self).text_len(),
            final(self).position() == match found {
                Some((start, end)) => search_after(start as int, end as int),
                None => old(self).position(),
            },
            found matches Some((start, end)) ==> start != end ==> final(self).position() == end,
            found matches Some((start, end)) ==> start == end ==> final(self).position() == end + 1,
    {
        if let Some((start, end)) = found {
            if start == end {
                self.last = end + 1;
            } else {
                self.last = end;
            }
        }
        found
    }
}

/// Where the search for match number `k` starts, after the matches before it.
pub open spec fn position_before(matches: Seq<(int, int)>, k: int) -> int {
    if k == 0 {
        0
    } else {
        search_after(matches[k - 1].0, matches[k - 1].1)
    }
}

/// Whether the matches have been found one after the other in a text of `len`
/// bytes: each lies within the text, at or after the position where it was
/// searched for.
pub open spec fn found_in_turn(matches: Seq<(int, int)>, len: int) -> bool {
    forall|k: int|
        0 <= k < matches.len() ==> position_before(matches, k) <= (#[trigger] matches[k]).0
            <= matches[k].1 <= len
}

/// The search skips nothing: it starts at the first byte, goes on right at the end
/// of a match that is not empty, and one byte further after an empty one, where
/// it would find the same match again. A match is searched for from every
/// position in the text, its end included, and from no other.
pub proof fn law_search_skips_nothing(matches: Seq<(int, int)>, len: int, k: int, position: usize)
    requires
        0 <= k < matches.len(),
    ensures
        position_before(matches, 0) == 0,
        matches[k].0 < matches[k].1 ==> position_before(matches, k + 1) == matches[k].1,
        matches[k].0 == matches[k].1 ==> position_before(matches, k + 1) == matches[k].1 + 1,
        position <= len ==> search_start(len, position as int) == Some(position),
        position > len ==> search_start(len, position as int) is None,
{
}

/// Every match moves the search forward: the next search starts further on, and
/// no later than one past the end of the text.
pub proof fn law_search_moves_forward(matches: Seq<(int, int)>, len: int, k: int)
    requires
        found_in_turn(matches, len),
        0 <= k < matches.len(),
    ensures
        position_before(matches, k) < position_before(matches, k + 1) <= len + 1,
{
    assert(position_before(matches, k) <= matches[k].0);
}

/// The search comes to an end: a text has at most one match for each of its
/// bytes and one for its end.
pub proof fn law_matches_come_to_an_end(matches: Seq<(int, int)>, len: int)
    requires
        found_in_turn(matches, len),
        len >= 0,
    ensures
        matches.len() <= len + 1,
{
    if matches.len() > 0 {
        lemma_position_grows(matches, len, 0, matches.len() as int);
        law_search_moves_forward(matches, len, matches.len() - 1);
    }
}

/// Matches do not overlap, and none is found twice: a later match starts no
/// earlier than an earlier one ends.
pub proof fn law_matches_do_not_overlap(matches: Seq<(int, int)>, len: int, i: int, j: int)
    requires
        found_in_turn(matches, len),
        0 <= i < j < matches.len(),
    ensures
        matches[i].1 <= matches[j].0,
        matches[i] != matches[j],
{
    lemma_position_grows(matches, len, i + 1, j);
    assert(position_before(matches, j) <= matches[j].0);
    assert(position_before(matches, i) <= matches[i].0);
}

proof fn lemma_position_grows(matches: Seq<(int, int)>, len: int, i: int, j: int)
    requires
        found_in_turn(matches, len),
        0 <= i <= j <= matches.len(),
    ensures
        position_before(matches, i) + (j - i) <= position_before(matches, j),
    decreases j,
{
    if i < j {
        lemma_position_grows(matches, len, i, j - 1);
        law_search_moves_forward(matches, len, j - 1);
    }
}

} // verus!
