//! The text frames that travel round the ring.
//!
//! A frame is one line of text. A line that begins with `/` is a command: a
//! command word, one space, and the argument. Any other line is a raw pixel:
//! the JSON of one pixel, exactly as a session submitted it.
//!
//! | frame                       | meaning                                   |
//! |-----------------------------|-------------------------------------------|
//! | `/sync <json>`              | full state and topology                   |
//! | `/all_pixels <json>`        | bulk resynchronisation                    |
//! | `/election election <id>`   | candidate token of an election            |
//! | `/election leader <id>`     | announcement of the elected leader        |
//! | `/disconnect <id>`          | replica `id` has left the ring            |
//! | `/new_connection <json>`    | a replica joins                           |
//!
//! JSON arguments are carried as bytes; this module never looks inside them.

use vstd::prelude::*;

verus! {

/// A frame, taken apart.
#[derive(Debug, PartialEq, Eq)]
pub enum Frame {
    /// A raw pixel: the whole line.
    Pixel(Vec<u8>),
    AllPixels(Vec<u8>),
    Candidate(u16),
    Leader(u16),
    Disconnect(u16),
    NewConnection(Vec<u8>),
    Sync(Vec<u8>),
}

/// Why a frame is dropped.
#[derive(Clone, Copy, Debug, PartialEq, Eq)]
pub enum ProtocolError {
    /// The line begins with `/`, but not with a known command word.
    UnknownCommand,
    /// A known command word with nothing after it.
    MissingArgument,
    /// `/election` followed by neither `election` nor `leader`.
    UnknownElectionKind,
    /// Where an id is due stands something else: no decimal number, or one
    /// that does not fit 16 bits.
    MalformedId,
}

/// A frame as a mathematical object.
pub enum FrameView {
    Pixel(Seq<u8>),
    AllPixels(Seq<u8>),
    Candidate(u16),
    Leader(u16),
    Disconnect(u16),
    NewConnection(Seq<u8>),
    Sync(Seq<u8>),
}

impl View for Frame {
    type V = FrameView;

    open spec fn view(&self) -> FrameView {
        match self {
            Frame::Pixel(p) => FrameView::Pixel(p@),
            Frame::AllPixels(p) => FrameView::AllPixels(p@),
            Frame::Candidate(id) => FrameView::Candidate(*id),
            Frame::Leader(id) => FrameView::Leader(*id),
            Frame::Disconnect(id) => FrameView::Disconnect(*id),
            Frame::NewConnection(p) => FrameView::NewConnection(p@),
            Frame::Sync(p) => FrameView::Sync(p@),
        }
    }
}

/// The view of a parse result.
pub open spec fn parsed_view(r: Result<Frame, ProtocolError>) -> Result<FrameView, ProtocolError> {
    match r {
        Ok(f) => Ok(f@),
        Err(e) => Err(e),
    }
}

/// Space, tab, line feed, vertical tab, form feed, carriage return.
pub open spec fn is_space(b: u8) -> bool {
    b == 32 || (9 <= b && b <= 13)
}

/// `s` without the white space at its front.
pub open spec fn trim_start(s: Seq<u8>) -> Seq<u8>
    decreases s.len(),
{
    if s.len() > 0 && is_space(s[0]) {
        trim_start(s.subrange(1, s.len() as int))
    } else {
        s
    }
}

/// `s` without the white space at its end.
pub open spec fn trim_end(s: Seq<u8>) -> Seq<u8>
    decreases s.len(),
{
    if s.len() > 0 && is_space(s.last()) {
        trim_end(s.drop_last())
    } else {
        s
    }
}

/// `s` without the white space at either end.
pub open spec fn trim(s: Seq<u8>) -> Seq<u8> {
    trim_end(trim_start(s))
}

/// `i` is where the first word of `s` ends: at the first space, or at the end
/// of `s` where it holds no space.
pub open spec fn is_word_end(s: Seq<u8>, i: int) -> bool {
    &&& 0 <= i <= s.len()
    &&& i < s.len() ==> s[i] == 32
    &&& forall|j: int| 0 <= j < i ==> s[j] != 32
}

/// The first word of `s`: what stands before its first space.
pub open spec fn head(s: Seq<u8>) -> Seq<u8> {
    s.subrange(0, choose|i: int| is_word_end(s, i))
}

/// What follows the first space of `s`; `None` where `s` holds no space.
pub open spec fn tail(s: Seq<u8>) -> Option<Seq<u8>> {
    let i = choose|i: int| is_word_end(s, i);
    if i < s.len() {
        Some(s.subrange(i + 1, s.len() as int))
    } else {
        None
    }
}

/// Every byte is an ASCII digit.
pub open spec fn all_digits(s: Seq<u8>) -> bool {
    forall|i: int| 0 <= i < s.len() ==> 48 <= #[trigger] s[i] <= 57
}

/// The number that the decimal digits `s` write.
pub open spec fn digits_value(s: Seq<u8>) -> nat
    decreases s.len(),
{
    if s.len() == 0 {
        0
    } else {
        (digits_value(s.drop_last()) * 10 + (s.last() - 48)) as nat
    }
}

/// The id that `s` writes: decimal digits, at least one, with an optional `+`
/// in front, and a value that fits 16 bits.
pub open spec fn parse_u16_spec(s: Seq<u8>) -> Option<u16> {
    let digits = if s.len() > 0 && s[0] == 43 {
        s.subrange(1, s.len() as int)
    } else {
        s
    };
    if digits.len() > 0 && all_digits(digits) && digits_value(digits) <= 0xffff {
        Some(digits_value(digits) as u16)
    } else {
        None
    }
}

/// `n` in decimal digits, without leading zeros.
pub open spec fn decimal(n: nat) -> Seq<u8>
    decreases n,
{
    if n < 10 {
        seq![(48 + n) as u8]
    } else {
        decimal(n / 10).push((48 + n % 10) as u8)
    }
}

/// The bytes of `/sync`.
pub open spec fn word_sync() -> Seq<u8> {
    seq![47, 115, 121, 110, 99]
}

/// The bytes of `/all_pixels`.
pub open spec fn word_all_pixels() -> Seq<u8> {
    seq![47, 97, 108, 108, 95, 112, 105, 120, 101, 108, 115]
}

/// The bytes of `/election`.
pub open spec fn word_election() -> Seq<u8> {
    seq![47, 101, 108, 101, 99, 116, 105, 111, 110]
}

/// The bytes of `/disconnect`.
pub open spec fn word_disconnect() -> Seq<u8> {
    seq![47, 100, 105, 115, 99, 111, 110, 110, 101, 99, 116]
}

/// The bytes of `/new_connection`.
pub open spec fn word_new_connection() -> Seq<u8> {
    seq![47, 110, 101, 119, 95, 99, 111, 110, 110, 101, 99, 116, 105, 111, 110]
}

/// The bytes of `election`, the kind of a candidate token.
pub open spec fn word_candidate() -> Seq<u8> {
    seq![101, 108, 101, 99, 116, 105, 111, 110]
}

/// The bytes of `leader`, the kind of an announcement.
pub open spec fn word_leader() -> Seq<u8> {
    seq![108, 101, 97, 100, 101, 114]
}

/// A command word, a space, and the argument.
pub open spec fn command_text(word: Seq<u8>, arg: Seq<u8>) -> Seq<u8> {
    word + seq![32u8] + arg
}

/// The text of `/election election <id>`.
pub open spec fn candidate_text(id: u16) -> Seq<u8> {
    command_text(word_election(), command_text(word_candidate(), decimal(id as nat)))
}

/// The text of `/election leader <id>`.
pub open spec fn leader_text(id: u16) -> Seq<u8> {
    command_text(word_election(), command_text(word_leader(), decimal(id as nat)))
}

/// The text of `/disconnect <id>`.
pub open spec fn disconnect_text(id: u16) -> Seq<u8> {
    command_text(word_disconnect(), decimal(id as nat))
}

/// What the argument of `/election` means: the kind, `election` or `leader`,
/// a space, and an id. Any other kind is refused; so is a kind without an
/// id, and one with something else in the place of the id.
pub open spec fn parse_election_spec(args: Seq<u8>) -> Result<FrameView, ProtocolError> {
    if head(args) != word_leader() && head(args) != word_candidate() {
        Err(ProtocolError::UnknownElectionKind)
    } else {
        match tail(args) {
            None => Err(ProtocolError::MissingArgument),
            Some(text) => match parse_u16_spec(text) {
                None => Err(ProtocolError::MalformedId),
                Some(id) => if head(args) == word_leader() {
                    Ok(FrameView::Leader(id))
                } else {
                    Ok(FrameView::Candidate(id))
                },
            },
        }
    }
}

/// What the argument of `/disconnect` means: the id of the replica that has
/// left. Anything else is refused.
pub open spec fn parse_disconnect_spec(arg: Seq<u8>) -> Result<FrameView, ProtocolError> {
    match parse_u16_spec(arg) {
        Some(id) => Ok(FrameView::Disconnect(id)),
        None => Err(ProtocolError::MalformedId),
    }
}

/// What a line means.
pub open spec fn parse_frame_spec(msg: Seq<u8>) -> Result<FrameView, ProtocolError> {
    let line = trim(msg);
    if line.len() > 0 && line[0] == 47 {
        let word = head(line);
        if word == word_all_pixels() {
            match tail(line) {
                Some(arg) => Ok(FrameView::AllPixels(arg)),
                None => Err(ProtocolError::MissingArgument),
            }
        } else if word == word_election() {
            match tail(line) {
                Some(arg) => parse_election_spec(arg),
                None => Err(ProtocolError::MissingArgument),
            }
        } else if word == word_disconnect() {
            match tail(line) {
                Some(arg) => parse_disconnect_spec(arg),
                None => Err(ProtocolError::MissingArgument),
            }
        } else if word == word_new_connection() {
            match tail(line) {
                Some(arg) => Ok(FrameView::NewConnection(arg)),
                None => Err(ProtocolError::MissingArgument),
            }
        } else if word == word_sync() {
            match tail(line) {
                Some(arg) => Ok(FrameView::Sync(arg)),
                None => Err(ProtocolError::MissingArgument),
            }
        } else {
            Err(ProtocolError::UnknownCommand)
        }
    } else {
        Ok(FrameView::Pixel(line))
    }
}

/// Whether `b` is white space.
pub fn byte_is_space(b: u8) -> (space: bool)
    ensures
        space == is_space(b),
{
    b == 32 || (9 <= b && b <= 13)
}

/// A copy of `s[from..to]`.
pub fn copy_range(s: &[u8], from: usize, to: usize) -> (out: Vec<u8>)
    requires
        from <= to <= s@.len(),
    ensures
        out@ == s@.subrange(from as int, to as int),
{
    let mut out: Vec<u8> = Vec::new();
    let mut i: usize = from;
    while i < to
        invariant
            from <= i <= to <= s@.len(),
            out@ == s@.subrange(from as int, i as int),
        decreases to - i,
    {
        out.push(s[i]);
        proof {
            assert(out@ =~= s@.subrange(from as int, i + 1));
        }
        i += 1;
    }
    out
}

/// Whether two byte strings are equal.
pub fn bytes_equal(a: &[u8], b: &[u8]) -> (equal: bool)
    ensures
        equal == (a@ == b@),
{
    if a.len() != b.len() {
        return false;
    }
    let mut i: usize = 0;
    while i < a.len()
        invariant
            i <= a@.len(),
            a@.len() == b@.len(),
            forall|j: int| 0 <= j < i ==> a@[j] == b@[j],
        decreases a@.len() - i,
    {
        if a[i] != b[i] {
            return false;
        }
        i += 1;
    }
    proof {
        assert(a@ =~= b@);
    }
    true
}

/// `a` followed by `b`.
pub fn join_bytes(a: &[u8], b: &[u8]) -> (out: Vec<u8>)
    ensures
        out@ == a@ + b@,
{
    let mut out = copy_range(a, 0, a.len());
    proof {
        assert(out@ =~= a@);
    }
    let mut i: usize = 0;
    while i < b.len()
        invariant
            i <= b@.len(),
            out@ == a@ + b@.subrange(0, i as int),
        decreases b@.len() - i,
    {
        out.push(b[i]);
        proof {
            assert(out@ =~= a@ + b@.subrange(0, i + 1));
        }
        i += 1;
    }
    proof {
        assert(b@.subrange(0, i as int) =~= b@);
    }
    out
}

/// The line without the white space at either end.
pub fn trim_bytes(s: &[u8]) -> (out: Vec<u8>)
    ensures
        out@ == trim(s@),
{
    let n = s.len();
    let mut a: usize = 0;
    proof {
        assert(s@.subrange(0, n as int) =~= s@);
    }
    while a < n && byte_is_space(s[a])
        invariant
            n == s@.len(),
            a <= n,
            trim_start(s@) == trim_start(s@.subrange(a as int, n as int)),
        decreases n - a,
    {
        proof {
            let rest = s@.subrange(a as int, n as int);
            assert(rest.subrange(1, rest.len() as int) =~= s@.subrange(a + 1, n as int));
        }
        a += 1;
    }
    let ghost front = s@.subrange(a as int, n as int);
    assert(trim_start(s@) == front);
    let mut b: usize = n;
    while b > a && byte_is_space(s[b - 1])
        invariant
            n == s@.len(),
            a <= b <= n,
            trim_end(front) == trim_end(s@.subrange(a as int, b as int)),
            front == s@.subrange(a as int, n as int),
        decreases b,
    {
        proof {
            let rest = s@.subrange(a as int, b as int);
            assert(rest.drop_last() =~= s@.subrange(a as int, b - 1));
        }
        b -= 1;
    }
    copy_range(s, a, b)
}

/// Splits at the first space: the first word, and what follows the space.
pub fn split_word(s: &[u8]) -> (parts: (Vec<u8>, Option<Vec<u8>>))
    ensures
        parts.0@ == head(s@),
        match parts.1 {
            Some(rest) => tail(s@) == Some(rest@),
            None => tail(s@) is None,
        },
{
    let n = s.len();
    let mut i: usize = 0;
    while i < n && s[i] != 32
        invariant
            n == s@.len(),
            i <= n,
            forall|j: int| 0 <= j < i ==> s@[j] != 32,
        decreases n - i,
    {
        i += 1;
    }
    proof {
        assert(is_word_end(s@, i as int));
        let c = choose|c: int| is_word_end(s@, c);
        assert(c == i);
    }
    let word = copy_range(s, 0, i);
    if i < n {
        (word, Some(copy_range(s, i + 1, n)))
    } else {
        (word, None)
    }
}

/// A longer run of digits writes no smaller a number.
pub proof fn lemma_digits_value_grows(s: Seq<u8>, k: int)
    requires
        all_digits(s),
        0 <= k <= s.len(),
    ensures
        digits_value(s.subrange(0, k)) <= digits_value(s),
    decreases s.len() - k,
{
    if k < s.len() {
        let next = s.subrange(0, k + 1);
        assert(next.drop_last() =~= s.subrange(0, k));
        assert(48 <= next.last() <= 57) by {
            assert(next.last() == s[k]);
        }
        lemma_digits_value_grows(s, k + 1);
    } else {
        assert(s.subrange(0, k) =~= s);
    }
}

/// Reads an id: decimal digits with an optional `+` in front. `None` where
/// the text is anything else or the number does not fit 16 bits.
pub fn parse_u16(s: &[u8]) -> (id: Option<u16>)
    ensures
        id == parse_u16_spec(s@),
{
    let n = s.len();
    let start: usize = if n > 0 && s[0] == 43 {
        1
    } else {
        0
    };
    let ghost digits = s@.subrange(start as int, n as int);
    proof {
        if start == 0 {
            assert(digits =~= s@);
        }
    }
    if start == n {
        return None;
    }
    let mut acc: u32 = 0;
    let mut i: usize = start;
    while i < n
        invariant
            n == s@.len(),
            start <= i <= n,
            digits == s@.subrange(start as int, n as int),
            start <= 1,
            start == 0 ==> digits == s@,
            start == 1 <==> n > 0 && s@[0] == 43,
            all_digits(digits.subrange(0, i - start)),
            acc == digits_value(digits.subrange(0, i - start)),
            acc <= 0xffff,
        decreases n - i,
    {
        let b = s[i];
        let ghost prefix = digits.subrange(0, i - start);
        let ghost next = digits.subrange(0, i - start + 1);
        proof {
            assert(next.drop_last() =~= prefix);
            assert(next.last() == b);
        }
        if b < 48 || b > 57 {
            proof {
                assert(digits[i - start] == b);
            }
            return None;
        }
        let value: u32 = acc * 10 + (b - 48) as u32;
        proof {
            assert(all_digits(next)) by {
                assert forall|j: int| 0 <= j < next.len() implies 48 <= #[trigger] next[j] <= 57 by {
                    if j < prefix.len() {
                        assert(next[j] == prefix[j]);
                    }
                }
            }
            assert(value == digits_value(next));
        }
        if value > 0xffff {
            proof {
                if all_digits(digits) {
                    lemma_digits_value_grows(digits, i - start + 1);
                }
            }
            return None;
        }
        acc = value;
        i += 1;
    }
    proof {
        assert(digits.subrange(0, i - start) =~= digits);
    }
    Some(acc as u16)
}

/// Decimal digits never hold a sign or a space, and they write their number.
pub proof fn lemma_decimal(n: nat)
    ensures
        decimal(n).len() > 0,
        all_digits(decimal(n)),
        digits_value(decimal(n)) == n,
    decreases n,
{
    if n < 10 {
        let s = decimal(n);
        assert(s.drop_last() =~= Seq::<u8>::empty());
        assert(digits_value(s.drop_last()) == 0);
    } else {
        lemma_decimal(n / 10);
        let s = decimal(n);
        let init = decimal(n / 10);
        assert(s.drop_last() =~= init);
        assert(s.last() == (48 + n % 10) as u8);
        assert forall|i: int| 0 <= i < s.len() implies 48 <= #[trigger] s[i] <= 57 by {
            if i < init.len() {
                assert(s[i] == init[i]);
            }
        }
    }
}

/// An id written in decimal is read back as itself.
pub proof fn lemma_parse_decimal(id: u16)
    ensures
        parse_u16_spec(decimal(id as nat)) == Some(id),
{
    lemma_decimal(id as nat);
    assert(decimal(id as nat)[0] != 43);
}

/// A word without a space, a space and an argument are taken apart again
/// as the word and the argument.
pub proof fn lemma_split_command(word: Seq<u8>, arg: Seq<u8>)
    requires
        forall|j: int| 0 <= j < word.len() ==> word[j] != 32,
    ensures
        head(command_text(word, arg)) == word,
        tail(command_text(word, arg)) == Some(arg),
{
    let s = command_text(word, arg);
    let n = word.len() as int;
    assert(s[n] == 32);
    assert forall|j: int| 0 <= j < n implies s[j] != 32 by {
        assert(s[j] == word[j]);
    }
    assert(is_word_end(s, n));
    let c = choose|i: int| is_word_end(s, i);
    assert(c == n);
    assert(s.subrange(0, n) =~= word);
    assert(s.subrange(n + 1, s.len() as int) =~= arg);
}

/// A text that neither begins nor ends with white space is its own trimmed
/// form.
pub proof fn lemma_trim_nothing(s: Seq<u8>)
    requires
        s.len() > 0,
        !is_space(s[0]),
        !is_space(s.last()),
    ensures
        trim(s) == s,
{
}

/// The command words hold no space, are distinct, and begin with `/` where
/// they name a command.
pub proof fn lemma_words()
    ensures
        forall|j: int| 0 <= j < word_election().len() ==> word_election()[j] != 32,
        forall|j: int| 0 <= j < word_disconnect().len() ==> word_disconnect()[j] != 32,
        forall|j: int| 0 <= j < word_candidate().len() ==> word_candidate()[j] != 32,
        forall|j: int| 0 <= j < word_leader().len() ==> word_leader()[j] != 32,
        word_election() != word_all_pixels(),
        word_disconnect() != word_all_pixels(),
        word_disconnect() != word_election(),
        word_candidate() != word_leader(),
        word_election()[0] == 47,
        word_disconnect()[0] == 47,
{
    assert(word_election().len() == 9);
    assert(word_disconnect().len() == 11);
    assert(word_all_pixels().len() == 11);
    assert(word_candidate().len() == 8);
    assert(word_leader().len() == 6);
    assert(word_disconnect()[1] != word_all_pixels()[1]);
    assert forall|j: int| 0 <= j < word_election().len() implies word_election()[j] != 32 by {
        lemma_no_space_9(word_election(), j);
    }
    assert forall|j: int| 0 <= j < word_disconnect().len() implies word_disconnect()[j] != 32 by {
        let w = word_disconnect();
        if j < 9 {
            lemma_no_space_9(w.subrange(0, 9), j);
        } else {
            assert(w[9] != 32 && w[10] != 32);
        }
    }
    assert forall|j: int| 0 <= j < word_candidate().len() implies word_candidate()[j] != 32 by {
        let w = word_candidate();
        assert(w[0] != 32 && w[1] != 32 && w[2] != 32 && w[3] != 32 && w[4] != 32 && w[5] != 32
            && w[6] != 32 && w[7] != 32);
    }
    assert forall|j: int| 0 <= j < word_leader().len() implies word_leader()[j] != 32 by {
        let w = word_leader();
        assert(w[0] != 32 && w[1] != 32 && w[2] != 32 && w[3] != 32 && w[4] != 32 && w[5] != 32);
    }
}

/// Nine bytes of which none is a space hold no space.
proof fn lemma_no_space_9(w: Seq<u8>, j: int)
    requires
        w.len() == 9,
        0 <= j < 9,
        w[0] != 32 && w[1] != 32 && w[2] != 32 && w[3] != 32 && w[4] != 32 && w[5] != 32 && w[6]
            != 32 && w[7] != 32 && w[8] != 32,
    ensures
        w[j] != 32,
{
}

/// What is written is read back. The frames of an election and of a
/// departure, written for an id, are read as that frame with that id.
pub proof fn lemma_frames_round_trip(id: u16)
    ensures
        parse_frame_spec(candidate_text(id)) == Ok::<FrameView, ProtocolError>(
            FrameView::Candidate(id),
        ),
        parse_frame_spec(leader_text(id)) == Ok::<FrameView, ProtocolError>(FrameView::Leader(id)),
        parse_frame_spec(disconnect_text(id)) == Ok::<FrameView, ProtocolError>(
            FrameView::Disconnect(id),
        ),
{
    lemma_words();
    lemma_decimal(id as nat);
    lemma_parse_decimal(id);
    let digits = decimal(id as nat);
    assert(!is_space(digits.last()));
    let candidate = command_text(word_candidate(), digits);
    let leader = command_text(word_leader(), digits);
    lemma_split_command(word_candidate(), digits);
    lemma_split_command(word_leader(), digits);
    lemma_split_command(word_election(), candidate);
    lemma_split_command(word_election(), leader);
    lemma_split_command(word_disconnect(), digits);
    assert(candidate.last() == digits.last());
    assert(leader.last() == digits.last());
    assert(candidate_text(id).last() == digits.last());
    assert(leader_text(id).last() == digits.last());
    assert(disconnect_text(id).last() == digits.last());
    assert(candidate_text(id)[0] == word_election()[0]);
    assert(leader_text(id)[0] == word_election()[0]);
    assert(disconnect_text(id)[0] == word_disconnect()[0]);
    lemma_trim_nothing(candidate_text(id));
    lemma_trim_nothing(leader_text(id));
    lemma_trim_nothing(disconnect_text(id));
    assert(parse_election_spec(candidate) == Ok::<FrameView, ProtocolError>(
        FrameView::Candidate(id),
    ));
    assert(parse_election_spec(leader) == Ok::<FrameView, ProtocolError>(FrameView::Leader(id)));
}

/// Writes an id in decimal.
pub fn format_u16(id: u16) -> (out: Vec<u8>)
    ensures
        out@ == decimal(id as nat),
    decreases id,
{
    if id < 10 {
        let mut out: Vec<u8> = Vec::new();
        out.push(48 + id as u8);
        proof {
            assert(out@ =~= decimal(id as nat));
        }
        out
    } else {
        let mut out = format_u16(id / 10);
        out.push(48 + (id % 10) as u8);
        out
    }
}

fn bytes_sync() -> (w: Vec<u8>)
    ensures
        w@ == word_sync(),
{
    let w: Vec<u8> = vec![47, 115, 121, 110, 99];
    proof {
        assert(w@ =~= word_sync());
    }
    w
}

fn bytes_all_pixels() -> (w: Vec<u8>)
    ensures
        w@ == word_all_pixels(),
{
    let w: Vec<u8> = vec![47, 97, 108, 108, 95, 112, 105, 120, 101, 108, 115];
    proof {
        assert(w@ =~= word_all_pixels());
    }
    w
}

fn bytes_election() -> (w: Vec<u8>)
    ensures
        w@ == word_election(),
{
    let w: Vec<u8> = vec![47, 101, 108, 101, 99, 116, 105, 111, 110];
    proof {
        assert(w@ =~= word_election());
    }
    w
}

fn bytes_disconnect() -> (w: Vec<u8>)
    ensures
        w@ == word_disconnect(),
{
    let w: Vec<u8> = vec![47, 100, 105, 115, 99, 111, 110, 110, 101, 99, 116];
    proof {
        assert(w@ =~= word_disconnect());
    }
    w
}

fn bytes_new_connection() -> (w: Vec<u8>)
    ensures
        w@ == word_new_connection(),
{
    let w: Vec<u8> = vec![47, 110, 101, 119, 95, 99, 111, 110, 110, 101, 99, 116, 105, 111, 110];
    proof {
        assert(w@ =~= word_new_connection());
    }
    w
}

fn bytes_candidate() -> (w: Vec<u8>)
    ensures
        w@ == word_candidate(),
{
    let w: Vec<u8> = vec![101, 108, 101, 99, 116, 105, 111, 110];
    proof {
        assert(w@ =~= word_candidate());
    }
    w
}

fn bytes_leader() -> (w: Vec<u8>)
    ensures
        w@ == word_leader(),
{
    let w: Vec<u8> = vec![108, 101, 97, 100, 101, 114];
    proof {
        assert(w@ =~= word_leader());
    }
    w
}

/// A command word, a space, and the argument.
pub fn command(word: &[u8], arg: &[u8]) -> (out: Vec<u8>)
    ensures
        out@ == command_text(word@, arg@),
{
    let mut out = copy_range(word, 0, word.len());
    proof {
        assert(out@ =~= word@);
    }
    out.push(32);
    let out = join_bytes(out.as_slice(), arg);
    proof {
        assert(out@ =~= command_text(word@, arg@));
    }
    out
}

/// The frame `/election election <id>`.
pub fn candidate_frame(id: u16) -> (out: Vec<u8>)
    ensures
        out@ == candidate_text(id),
{
    let inner = command(bytes_candidate().as_slice(), format_u16(id).as_slice());
    command(bytes_election().as_slice(), inner.as_slice())
}

/// The frame `/election leader <id>`.
pub fn leader_frame(id: u16) -> (out: Vec<u8>)
    ensures
        out@ == leader_text(id),
{
    let inner = command(bytes_leader().as_slice(), format_u16(id).as_slice());
    command(bytes_election().as_slice(), inner.as_slice())
}

/// The frame `/disconnect <id>`.
pub fn disconnect_frame(id: u16) -> (out: Vec<u8>)
    ensures
        out@ == disconnect_text(id),
{
    command(bytes_disconnect().as_slice(), format_u16(id).as_slice())
}

/// The frame `/sync <json>`.
pub fn sync_frame(json: &[u8]) -> (out: Vec<u8>)
    ensures
        out@ == command_text(word_sync(), json@),
{
    command(bytes_sync().as_slice(), json)
}

/// The frame `/new_connection <json>`.
pub fn new_connection_frame(json: &[u8]) -> (out: Vec<u8>)
    ensures
        out@ == command_text(word_new_connection(), json@),
{
    command(bytes_new_connection().as_slice(), json)
}

/// The frame `/all_pixels <json>`.
pub fn all_pixels_frame(json: &[u8]) -> (out: Vec<u8>)
    ensures
        out@ == command_text(word_all_pixels(), json@),
{
    command(bytes_all_pixels().as_slice(), json)
}

/// Reads the argument of `/election`.
pub fn parse_election(args: &[u8]) -> (frame: Result<Frame, ProtocolError>)
    ensures
        parsed_view(frame) == parse_election_spec(args@),
{
    let (kind, rest) = split_word(args);
    let leader = bytes_equal(kind.as_slice(), bytes_leader().as_slice());
    let candidate = bytes_equal(kind.as_slice(), bytes_candidate().as_slice());
    if !leader && !candidate {
        return Err(ProtocolError::UnknownElectionKind);
    }
    match rest {
        None => Err(ProtocolError::MissingArgument),
        Some(text) => match parse_u16(text.as_slice()) {
            None => Err(ProtocolError::MalformedId),
            Some(id) => if leader {
                Ok(Frame::Leader(id))
            } else {
                Ok(Frame::Candidate(id))
            },
        },
    }
}

/// Reads the argument of `/disconnect`.
pub fn parse_disconnect(arg: &[u8]) -> (frame: Result<Frame, ProtocolError>)
    ensures
        parsed_view(frame) == parse_disconnect_spec(arg@),
{
    match parse_u16(arg) {
        Some(id) => Ok(Frame::Disconnect(id)),
        None => Err(ProtocolError::MalformedId),
    }
}

/// Reads one line.
pub fn parse_frame(msg: &[u8]) -> (frame: Result<Frame, ProtocolError>)
    ensures
        parsed_view(frame) == parse_frame_spec(msg@),
{
    let line = trim_bytes(msg);
    if line.len() > 0 && line[0] == 47 {
        let (word, rest) = split_word(line.as_slice());
        let known_all = bytes_equal(word.as_slice(), bytes_all_pixels().as_slice());
        let known_election = bytes_equal(word.as_slice(), bytes_election().as_slice());
        let known_disconnect = bytes_equal(word.as_slice(), bytes_disconnect().as_slice());
        let known_new = bytes_equal(word.as_slice(), bytes_new_connection().as_slice());
        let known_sync = bytes_equal(word.as_slice(), bytes_sync().as_slice());
        if !(known_all || known_election || known_disconnect || known_new || known_sync) {
            return Err(ProtocolError::UnknownCommand);
        }
        match rest {
            None => Err(ProtocolError::MissingArgument),
            Some(arg) => {
                if known_all {
                    Ok(Frame::AllPixels(arg))
                } else if known_election {
                    parse_election(arg.as_slice())
                } else if known_disconnect {
                    parse_disconnect(arg.as_slice())
                } else if known_new {
                    Ok(Frame::NewConnection(arg))
                } else {
                    Ok(Frame::Sync(arg))
                }
            },
        }
    } else {
        Ok(Frame::Pixel(line))
    }
}

} // verus!
