//! The player's record: how many rounds were won in how many attempts, and
//! the text in which the record is kept between runs.
//!
//! The text holds one entry per line, as the number of attempts, a colon and
//! the number of wins. Lines end with a line feed, which a carriage return may
//! precede; a last line need not be ended. A line without a colon is passed
//! over. A line with a colon whose two sides are not both numbers of their
//! range spoils the whole text, and so does an entry for a number of attempts
//! that no round can take, or a second entry for the same number: a record
//! maps numbers of attempts from one to six to wins.

use vstd::prelude::*;
use crate::decimal::{is_digit, lemma_numeral, lemma_parse_numeral, numeral, parse, read_number, write_number};
use crate::round::MAX_ATTEMPTS;

verus! {

/// The colon between the two numbers of an entry.
pub const COLON: u8 = 0x3a;

/// The line feed that ends a line.
pub const LINE_FEED: u8 = 0x0a;

/// The carriage return that may precede a line feed.
pub const CARRIAGE_RETURN: u8 = 0x0d;

/// One entry of the record: a number of attempts and the wins that took it.
pub type Entry = (u8, usize);

/// The least index from `i` on at which `s` holds `b`; the length of `s`
/// where there is none.
pub open spec fn position_from(s: Seq<u8>, b: u8, i: int) -> int
    decreases s.len() - i,
{
    if i >= s.len() {
        s.len() as int
    } else if 0 <= i && s[i] == b {
        i
    } else {
        position_from(s, b, i + 1)
    }
}

/// The index of the first `b` in `s`; the length of `s` where there is none.
pub open spec fn position(s: Seq<u8>, b: u8) -> int {
    position_from(s, b, 0)
}

/// What a line of the text says.
pub enum Line {
    /// An entry of the record.
    Entry(u8, usize),
    /// Nothing: the line has no colon.
    Skipped,
    /// The line has a colon, and a side of it is no number of its range.
    Malformed,
}

/// What a line, taken without its end, says.
pub open spec fn line_of(line: Seq<u8>) -> Line {
    let k = position(line, COLON);
    if k == line.len() {
        Line::Skipped
    } else {
        match (parse(line.take(k), u8::MAX as nat), parse(line.skip(k + 1), usize::MAX as nat)) {
            (Some(attempts), Some(wins)) => Line::Entry(attempts as u8, wins as usize),
            _ => Line::Malformed,
        }
    }
}

/// The first line of a text, without its end.
pub open spec fn first_line(text: Seq<u8>) -> Seq<u8> {
    let k = position(text, LINE_FEED);
    if 0 < k < text.len() && text[k - 1] == CARRIAGE_RETURN {
        text.take(k - 1)
    } else {
        text.take(k)
    }
}

/// The text after its first line.
pub open spec fn after_first_line(text: Seq<u8>) -> Seq<u8> {
    let k = position(text, LINE_FEED);
    if 0 <= k < text.len() {
        text.skip(k + 1)
    } else {
        Seq::empty()
    }
}

/// The entries that a text holds, in the order of its lines; `None` where a
/// line is malformed.
pub open spec fn entries_of(text: Seq<u8>) -> Option<Seq<Entry>>
    decreases text.len(),
{
    if text.len() == 0 {
        Some(Seq::empty())
    } else {
        match line_of(first_line(text)) {
            Line::Malformed => None,
            Line::Skipped => entries_of(after_first_line(text)),
            Line::Entry(attempts, wins) => match entries_of(after_first_line(text)) {
                Some(rest) => Some(seq![(attempts, wins)] + rest),
                None => None,
            },
        }
    }
}

/// The entries make a mapping from numbers of attempts to wins: every number
/// of attempts is one that a round can take, and none has two entries.
pub open spec fn is_mapping(entries: Seq<Entry>) -> bool {
    &&& forall|i: int|
        0 <= i < entries.len() ==> 1 <= (#[trigger] entries[i]).0 <= MAX_ATTEMPTS
    &&& forall|i: int, j: int|
        0 <= i < j < entries.len() ==> (#[trigger] entries[i]).0 != (#[trigger] entries[j]).0
}

/// The record that a text holds: its entries where they make a mapping;
/// `None` where a line is malformed or the entries make no mapping.
pub open spec fn record_of(text: Seq<u8>) -> Option<Seq<Entry>> {
    match entries_of(text) {
        Some(entries) => if is_mapping(entries) {
            Some(entries)
        } else {
            None
        },
        None => None,
    }
}

/// The line that holds an entry, with its end.
pub open spec fn line_text(entry: Entry) -> Seq<u8> {
    numeral(entry.0 as nat) + seq![COLON] + numeral(entry.1 as nat) + seq![LINE_FEED]
}

/// The text that holds the entries, one line each.
pub open spec fn text_of(entries: Seq<Entry>) -> Seq<u8>
    decreases entries.len(),
{
    if entries.len() == 0 {
        Seq::empty()
    } else {
        line_text(entries[0]) + text_of(entries.drop_first())
    }
}

/// The record with no win in any number of attempts from one to six.
pub open spec fn blank() -> Seq<Entry> {
    seq![(1u8, 0usize), (2u8, 0usize), (3u8, 0usize), (4u8, 0usize), (5u8, 0usize), (6u8, 0usize)]
}

/// The index of the first entry for a number of attempts; the number of
/// entries where there is none.
pub open spec fn slot_from(entries: Seq<Entry>, attempts: u8, i: int) -> int
    decreases entries.len() - i,
{
    if i >= entries.len() {
        entries.len() as int
    } else if 0 <= i && entries[i].0 == attempts {
        i
    } else {
        slot_from(entries, attempts, i + 1)
    }
}

/// The wins recorded for a number of attempts: those of its first entry.
pub open spec fn wins(entries: Seq<Entry>, attempts: u8) -> nat {
    let k = slot_from(entries, attempts, 0);
    if 0 <= k < entries.len() {
        entries[k].1 as nat
    } else {
        0
    }
}

/// The record after one more win in the given number of attempts. The first
/// entry for that number counts one more, unless it stands at the largest
/// count there is; without such an entry a new one is added at the end.
pub open spec fn with_win(entries: Seq<Entry>, attempts: u8) -> Seq<Entry> {
    let k = slot_from(entries, attempts, 0);
    if 0 <= k < entries.len() {
        if entries[k].1 < usize::MAX {
            entries.update(k, (attempts, (entries[k].1 + 1) as usize))
        } else {
            entries
        }
    } else {
        entries.push((attempts, 1usize))
    }
}

/// The player's record and the path of the file that keeps it.
pub struct UserData {
    guess_distribution: Vec<Entry>,
    path: String,
}

/// What a `UserData` holds.
pub struct UserDataView {
    pub entries: Seq<Entry>,
    pub path: Seq<char>,
}

impl UserDataView {
    /// The entries make a mapping.
    pub open spec fn wf(self) -> bool {
        is_mapping(self.entries)
    }
}

impl View for UserData {
    type V = UserDataView;

    closed spec fn view(&self) -> UserDataView {
        UserDataView { entries: self.guess_distribution@, path: self.path@ }
    }
}

proof fn lemma_position_from(s: Seq<u8>, b: u8, i: int, k: int)
    requires
        0 <= i <= k <= s.len(),
        forall|j: int| i <= j < k ==> s[j] != b,
        k < s.len() ==> s[k] == b,
    ensures
        position_from(s, b, i) == k,
    decreases k - i,
{
    if i < k {
        lemma_position_from(s, b, i + 1, k);
    }
}

proof fn lemma_slot_from(entries: Seq<Entry>, attempts: u8, i: int, k: int)
    requires
        0 <= i <= k <= entries.len(),
        forall|j: int| i <= j < k ==> entries[j].0 != attempts,
        k < entries.len() ==> entries[k].0 == attempts,
    ensures
        slot_from(entries, attempts, i) == k,
    decreases k - i,
{
    if i < k {
        lemma_slot_from(entries, attempts, i + 1, k);
    }
}

/// The text of a record grows by one line with every entry added at its end.
proof fn lemma_text_of_push(entries: Seq<Entry>, entry: Entry)
    ensures
        text_of(entries.push(entry)) == text_of(entries) + line_text(entry),
    decreases entries.len(),
{
    let longer = entries.push(entry);
    if entries.len() == 0 {
        assert(longer.drop_first() =~= Seq::<Entry>::empty());
        assert(text_of(longer.drop_first()) =~= Seq::<u8>::empty());
        assert(text_of(longer) =~= line_text(entry));
        assert(text_of(entries) + line_text(entry) =~= line_text(entry));
    } else {
        assert(longer.drop_first() =~= entries.drop_first().push(entry));
        lemma_text_of_push(entries.drop_first(), entry);
        assert(text_of(longer) =~= text_of(entries) + line_text(entry));
    }
}

/// A text that begins with the line of an entry holds that entry first, and
/// after it what the rest of the text holds.
proof fn lemma_line_then_rest(entry: Entry, rest: Seq<u8>)
    ensures
        entries_of(line_text(entry) + rest) == match entries_of(rest) {
            Some(others) => Some(seq![entry] + others),
            None => None,
        },
{
    let left = numeral(entry.0 as nat);
    let right = numeral(entry.1 as nat);
    let line = left + seq![COLON] + right;
    let text = line_text(entry) + rest;
    lemma_numeral(entry.0 as nat);
    lemma_numeral(entry.1 as nat);
    lemma_parse_numeral(entry.0 as nat, u8::MAX as nat);
    lemma_parse_numeral(entry.1 as nat, usize::MAX as nat);
    let n = line.len() as int;
    assert forall|j: int| 0 <= j < n implies text[j] != LINE_FEED by {
        if j < left.len() {
            assert(text[j] == left[j]);
            assert(is_digit(left[j]));
        } else if j > left.len() {
            assert(text[j] == right[j - left.len() - 1]);
            assert(is_digit(right[j - left.len() - 1]));
        }
    }
    assert(text[n] == LINE_FEED);
    lemma_position_from(text, LINE_FEED, 0, n);
    assert(text[n - 1] == right[right.len() - 1]);
    assert(is_digit(right[right.len() - 1]));
    assert(first_line(text) =~= line);
    assert(after_first_line(text) =~= rest);
    assert forall|j: int| 0 <= j < left.len() implies line[j] != COLON by {
        assert(line[j] == left[j]);
        assert(is_digit(left[j]));
    }
    lemma_position_from(line, COLON, 0, left.len() as int);
    assert(line.take(left.len() as int) =~= left);
    assert(line.skip(left.len() as int + 1) =~= right);
}

/// Reading the text of a record gives the record back.
pub proof fn lemma_text_round_trip(entries: Seq<Entry>)
    ensures
        entries_of(text_of(entries)) == Some(entries),
    decreases entries.len(),
{
    if entries.len() > 0 {
        lemma_text_round_trip(entries.drop_first());
        lemma_line_then_rest(entries[0], text_of(entries.drop_first()));
        assert(seq![entries[0]] + entries.drop_first() =~= entries);
    }
}

/// Reading the text of a record that is a mapping gives the record back.
pub proof fn lemma_record_round_trip(entries: Seq<Entry>)
    requires
        is_mapping(entries),
    ensures
        record_of(text_of(entries)) == Some(entries),
{
    lemma_text_round_trip(entries);
}

/// One more win in a number of attempts that a round can take leaves a
/// mapping a mapping.
pub proof fn lemma_with_win_is_mapping(entries: Seq<Entry>, attempts: u8)
    requires
        is_mapping(entries),
        1 <= attempts <= MAX_ATTEMPTS,
    ensures
        is_mapping(with_win(entries, attempts)),
{
    let k = slot_from(entries, attempts, 0);
    lemma_slot_found(entries, attempts, 0);
    let after = with_win(entries, attempts);
    if 0 <= k < entries.len() {
        assert forall|i: int| 0 <= i < after.len() implies (#[trigger] after[i]).0
            == entries[i].0 by {}
        assert forall|i: int| 0 <= i < after.len() implies 1 <= (#[trigger] after[i]).0
            <= MAX_ATTEMPTS by {
            assert(after[i].0 == entries[i].0);
        }
        assert forall|i: int, j: int| 0 <= i < j < after.len() implies (#[trigger] after[i]).0 != (
        #[trigger] after[j]).0 by {
            assert(after[i].0 == entries[i].0);
            assert(after[j].0 == entries[j].0);
        }
    } else {
        assert forall|i: int| 0 <= i < after.len() implies 1 <= (#[trigger] after[i]).0
            <= MAX_ATTEMPTS by {
            if i < entries.len() {
                assert(after[i] == entries[i]);
            }
        }
        assert forall|i: int, j: int| 0 <= i < j < after.len() implies (#[trigger] after[i]).0 != (
        #[trigger] after[j]).0 by {
            assert(after[i] == entries[i]);
            if j < entries.len() {
                assert(after[j] == entries[j]);
            }
        }
    }
}

/// What `slot_from` finds: an entry for the number of attempts with none
/// before it from `i` on, or the end with none at all from `i` on.
proof fn lemma_slot_found(entries: Seq<Entry>, attempts: u8, i: int)
    requires
        0 <= i <= entries.len(),
    ensures
        i <= slot_from(entries, attempts, i) <= entries.len(),
        slot_from(entries, attempts, i) < entries.len() ==> entries[slot_from(
            entries,
            attempts,
            i,
        )].0 == attempts,
        forall|j: int| i <= j < slot_from(entries, attempts, i) ==> entries[j].0 != attempts,
    decreases entries.len() - i,
{
    if i < entries.len() && entries[i].0 != attempts {
        lemma_slot_found(entries, attempts, i + 1);
    }
}

/// Tells whether the entries hold one for the number of attempts.
fn has_entry(entries: &Vec<Entry>, attempts: u8) -> (found: bool)
    ensures
        found <==> exists|j: int| 0 <= j < entries@.len() && (#[trigger] entries@[j]).0 == attempts,
{
    let mut k: usize = 0;
    while k < entries.len()
        invariant
            k <= entries@.len(),
            forall|j: int| 0 <= j < k ==> (#[trigger] entries@[j]).0 != attempts,
        decreases entries@.len() - k,
    {
        if entries[k].0 == attempts {
            return true;
        }
        k += 1;
    }
    false
}

/// Finds the first `b` among the bytes from `start` up to `end`.
fn find_byte(text: &[u8], start: usize, end: usize, b: u8) -> (k: usize)
    requires
        start <= end <= text@.len(),
    ensures
        start <= k <= end,
        k - start == position(text@.subrange(start as int, end as int), b),
{
    let ghost part = text@.subrange(start as int, end as int);
    let mut k = start;
    while k < end && text[k] != b
        invariant
            start <= k <= end <= text@.len(),
            part == text@.subrange(start as int, end as int),
            forall|j: int| 0 <= j < k - start ==> part[j] != b,
        decreases end - k,
    {
        k += 1;
    }
    proof {
        lemma_position_from(part, b, 0, k - start);
    }
    k
}

/// Reads the line that the bytes from `start` up to `end` hold.
fn read_line(text: &[u8], start: usize, end: usize) -> (line: Line)
    requires
        start <= end <= text@.len(),
    ensures
        line == line_of(text@.subrange(start as int, end as int)),
{
    let ghost part = text@.subrange(start as int, end as int);
    let colon = find_byte(text, start, end, COLON);
    if colon == end {
        return Line::Skipped;
    }
    assert(part.take(colon - start) =~= text@.subrange(start as int, colon as int));
    assert(part.skip(colon - start + 1) =~= text@.subrange(colon + 1, end as int));
    let attempts = read_number(text, start, colon, u8::MAX as usize);
    let wins = read_number(text, colon + 1, end, usize::MAX);
    match (attempts, wins) {
        (Some(a), Some(w)) => Line::Entry(a as u8, w),
        _ => Line::Malformed,
    }
}

impl UserData {
    #[verifier::type_invariant]
    spec fn inv(self) -> bool {
        is_mapping(self.guess_distribution@)
    }

    /// A record without wins, to be kept at `path`.
    pub fn new(path: &str) -> (data: UserData)
        ensures
            data@.entries == blank(),
            data@.path == path@,
            data@.wf(),
    {
        let mut guess_distribution: Vec<Entry> = Vec::new();
        guess_distribution.push((1, 0));
        guess_distribution.push((2, 0));
        guess_distribution.push((3, 0));
        guess_distribution.push((4, 0));
        guess_distribution.push((5, 0));
        guess_distribution.push((6, 0));
        assert(guess_distribution@ =~= blank());
        assert(is_mapping(blank()));
        UserData { guess_distribution, path: path.to_owned() }
    }

    /// Reads the record that the text of the file at `filepath` holds.
    /// A text that is malformed or holds no mapping gives no record.
    pub fn load(filepath: &str, text: &[u8]) -> (loaded: Option<UserData>)
        ensures
            match record_of(text@) {
                Some(entries) => loaded matches Some(data) && data@.entries == entries
                    && data@.path == filepath@ && data@.wf(),
                None => loaded.is_none(),
            },
    {
        let mut guess_distribution: Vec<Entry> = Vec::new();
        let mut pos: usize = 0;
        proof {
            assert(text@.skip(0) =~= text@);
            match entries_of(text@) {
                Some(rest) => {
                    assert(guess_distribution@ + rest =~= rest);
                },
                None => {},
            }
        }
        while pos < text.len()
            invariant
                pos <= text@.len(),
                is_mapping(guess_distribution@),
                entries_of(text@) == match entries_of(text@.skip(pos as int)) {
                    Some(rest) => Some(guess_distribution@ + rest),
                    None => None,
                },
            decreases text@.len() - pos,
        {
            let ghost rest = text@.skip(pos as int);
            let ghost before = guess_distribution@;
            assert(rest =~= text@.subrange(pos as int, text@.len() as int));
            let feed = find_byte(text, pos, text.len(), LINE_FEED);
            let end = if pos < feed && feed < text.len() && text[feed - 1] == CARRIAGE_RETURN {
                feed - 1
            } else {
                feed
            };
            assert(first_line(rest) =~= text@.subrange(pos as int, end as int));
            let next = if feed < text.len() {
                feed + 1
            } else {
                feed
            };
            assert(after_first_line(rest) =~= text@.skip(next as int));
            match read_line(text, pos, end) {
                Line::Malformed => {
                    return None;
                },
                Line::Skipped => {},
                Line::Entry(attempts, wins) => {
                    let fits = 1 <= attempts && attempts <= MAX_ATTEMPTS && !has_entry(
                        &guess_distribution,
                        attempts,
                    );
                    proof {
                        match entries_of(text@.skip(next as int)) {
                            Some(tail) => {
                                let whole = before + (seq![(attempts, wins)] + tail);
                                assert(entries_of(text@) == Some(whole));
                                assert(whole[before.len() as int] == (attempts, wins));
                                if !fits && 1 <= attempts <= MAX_ATTEMPTS {
                                    let j = choose|j: int|
                                        0 <= j < before.len() && (#[trigger] before[j]).0
                                            == attempts;
                                    assert(whole[j] == before[j]);
                                    assert(whole[j].0 == whole[before.len() as int].0);
                                }
                                assert(!fits ==> !is_mapping(whole));
                                assert(before + (seq![(attempts, wins)] + tail) =~= before.push(
                                    (attempts, wins),
                                ) + tail);
                            },
                            None => {},
                        }
                    }
                    if !fits {
                        return None;
                    }
                    guess_distribution.push((attempts, wins));
                    assert(is_mapping(guess_distribution@)) by {
                        let now = guess_distribution@;
                        assert forall|i: int| 0 <= i < now.len() implies 1 <= (#[trigger] now[i]).0
                            <= MAX_ATTEMPTS by {
                            if i < before.len() {
                                assert(now[i] == before[i]);
                            }
                        }
                        assert forall|i: int, j: int| 0 <= i < j < now.len() implies (
                        #[trigger] now[i]).0 != (#[trigger] now[j]).0 by {
                            assert(now[i] == before[i]);
                            if j < before.len() {
                                assert(now[j] == before[j]);
                            }
                        }
                    }
                },
            }
            pos = next;
        }
        assert(guess_distribution@ + Seq::<Entry>::empty() =~= guess_distribution@);
        Some(UserData { guess_distribution, path: filepath.to_owned() })
    }

    /// The record to go on with: the one that the text of the file at
    /// `filepath` holds, or one without wins where there is no text or the
    /// text holds no record. The flag tells whether the text was taken.
    pub fn load_or_new(filepath: &str, text: Option<&[u8]>) -> (restored: (UserData, bool))
        ensures
            restored.0@.path == filepath@,
            restored.0@.wf(),
            match text {
                Some(bytes) => match record_of(bytes@) {
                    Some(entries) => restored.1 && restored.0@.entries == entries,
                    None => !restored.1 && restored.0@.entries == blank(),
                },
                None => !restored.1 && restored.0@.entries == blank(),
            },
    {
        match text {
            Some(bytes) => match UserData::load(filepath, bytes) {
                Some(data) => (data, true),
                None => (UserData::new(filepath), false),
            },
            None => (UserData::new(filepath), false),
        }
    }

    /// The text that holds the record.
    pub fn dump(&self) -> (text: Vec<u8>)
        ensures
            text@ == text_of(self@.entries),
            record_of(text@) == Some(self@.entries),
    {
        let mut text: Vec<u8> = Vec::new();
        let mut i: usize = 0;
        while i < self.guess_distribution.len()
            invariant
                i <= self.guess_distribution@.len(),
                text@ == text_of(self.guess_distribution@.take(i as int)),
            decreases self.guess_distribution@.len() - i,
        {
            let ghost before = text@;
            let (attempts, wins) = self.guess_distribution[i];
            write_number(&mut text, attempts as usize);
            text.push(COLON);
            write_number(&mut text, wins);
            text.push(LINE_FEED);
            proof {
                let entry = self.guess_distribution@[i as int];
                assert(text@ =~= before + line_text(entry));
                lemma_text_of_push(self.guess_distribution@.take(i as int), entry);
                assert(self.guess_distribution@.take(i as int).push(entry)
                    =~= self.guess_distribution@.take(i + 1));
            }
            i += 1;
        }
        proof {
            use_type_invariant(self);
            assert(self.guess_distribution@.take(i as int) =~= self.guess_distribution@);
            lemma_record_round_trip(self@.entries);
        }
        text
    }

    /// A copy of the record with one more win in the given number of
    /// attempts, which must be one that a round can take.
    pub fn after_win(&self, attempts: u8) -> (data: UserData)
        requires
            1 <= attempts <= MAX_ATTEMPTS,
        ensures
            data@.entries == with_win(self@.entries, attempts),
            data@.path == self@.path,
            data@.wf(),
    {
        let ghost target = with_win(self.guess_distribution@, attempts);
        proof {
            use_type_invariant(self);
            lemma_slot_found(self.guess_distribution@, attempts, 0);
            lemma_with_win_is_mapping(self.guess_distribution@, attempts);
        }
        let mut guess_distribution: Vec<Entry> = Vec::new();
        let mut found = false;
        let mut i: usize = 0;
        while i < self.guess_distribution.len()
            invariant
                i <= self.guess_distribution@.len(),
                target == with_win(self.guess_distribution@, attempts),
                found <==> slot_from(self.guess_distribution@, attempts, 0) < i,
                0 <= slot_from(self.guess_distribution@, attempts, 0)
                    <= self.guess_distribution@.len(),
                slot_from(self.guess_distribution@, attempts, 0) < self.guess_distribution@.len()
                    ==> self.guess_distribution@[slot_from(
                    self.guess_distribution@,
                    attempts,
                    0,
                )].0 == attempts,
                forall|j: int|
                    0 <= j < slot_from(self.guess_distribution@, attempts, 0)
                        ==> self.guess_distribution@[j].0 != attempts,
                guess_distribution@ == target.take(i as int),
            decreases self.guess_distribution@.len() - i,
        {
            let (key, count) = self.guess_distribution[i];
            if key == attempts && !found {
                found = true;
                if count < usize::MAX {
                    guess_distribution.push((key, count + 1));
                } else {
                    guess_distribution.push((key, count));
                }
            } else {
                guess_distribution.push((key, count));
            }
            assert(guess_distribution@ =~= target.take(i + 1));
            i += 1;
        }
        if !found {
            guess_distribution.push((attempts, 1));
        }
        assert(guess_distribution@ =~= target);
        UserData { guess_distribution, path: self.path.clone() }
    }

    /// Counts one more win in the given number of attempts, which must be
    /// one that a round can take.
    pub fn record_win(&mut self, attempts: u8)
        requires
            1 <= attempts <= MAX_ATTEMPTS,
        ensures
            final(self)@.entries == with_win(old(self)@.entries, attempts),
            final(self)@.path == old(self)@.path,
            final(self)@.wf(),
    {
        let next = self.after_win(attempts);
        *self = next;
    }

    /// The wins recorded for a number of attempts.
    pub fn wins_in(&self, attempts: u8) -> (count: usize)
        ensures
            count == wins(self@.entries, attempts),
    {
        let mut k: usize = 0;
        while k < self.guess_distribution.len() && self.guess_distribution[k].0 != attempts
            invariant
                k <= self.guess_distribution@.len(),
                forall|j: int| 0 <= j < k ==> self.guess_distribution@[j].0 != attempts,
            decreases self.guess_distribution@.len() - k,
        {
            k += 1;
        }
        proof {
            lemma_slot_from(self.guess_distribution@, attempts, 0, k as int);
        }
        if k < self.guess_distribution.len() {
            self.guess_distribution[k].1
        } else {
            0
        }
    }

    /// The entries of the record, in their order.
    pub fn distribution(&self) -> (entries: &Vec<Entry>)
        ensures
            entries@ == self@.entries,
            is_mapping(entries@),
    {
        proof {
            use_type_invariant(self);
        }
        &self.guess_distribution
    }

    /// The path of the file that keeps the record.
    pub fn path(&self) -> (path: &String)
        ensures
            path@ == self@.path,
    {
        &self.path
    }
}

} // verus!
