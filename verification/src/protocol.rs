//! The chunked `locations:*` protocol of the extension: a session that
//! collects building positions, holds the detection result, and hands it out
//! in pages that fit a `callExtension` reply.

use crate::text::{
    decimal, decimal_string, lemma_ascii_utf8_len, lemma_decimal_utf8_len, lemma_encode_concat,
    join, lemma_decimal_len_bound, lemma_utf8_len_at_least, push_char, utf8_len, views,
};
use crate::locations::{LocationClass, class_index};
use vstd::utf8::encode_utf8;
use vstd::prelude::*;

verus! {

/// A page of a `Detected` session's output never exceeds this many bytes, well
/// under `callExtension`'s 10240-byte hard cap (a single entry excepted).
pub const PAGE_BYTE_BUDGET: usize = 9000;

// ----------------------------------------------------------------------------
// Paging
// ----------------------------------------------------------------------------

/// `body` with `entry` added: after a comma unless `body` is still empty.
pub open spec fn append_entry(body: Seq<char>, entry: Seq<char>) -> Seq<char> {
    if body.len() == 0 {
        entry
    } else {
        body + seq![','] + entry
    }
}

/// The entries `from..to` as a page body.
pub open spec fn page_body(entries: Seq<Seq<char>>, from: int, to: int) -> Seq<char>
    decreases to - from,
{
    if to <= from {
        seq![]
    } else {
        append_entry(page_body(entries, from, to - 1), entries[to - 1])
    }
}

/// A page: `[next,[entry,...]]` with the entries `from..to`.
pub open spec fn page_text(entries: Seq<Seq<char>>, from: int, to: int, next: nat) -> Seq<char> {
    seq!['['] + decimal(next) + seq![',', '['] + page_body(entries, from, to) + seq![']', ']']
}

/// The page that would hold the entries `from..=idx`.
pub open spec fn candidate_page(entries: Seq<Seq<char>>, from: int, idx: int) -> Seq<char> {
    page_text(entries, from, idx + 1, (idx + 1) as nat)
}

/// Where a page starting at `from` ends, scanning from `idx`: the first entry
/// that would push a non-empty page over [`PAGE_BYTE_BUDGET`] bytes, or the
/// end of the entries.
pub open spec fn page_end(entries: Seq<Seq<char>>, from: int, idx: int) -> int
    decreases entries.len() - idx,
{
    if idx >= entries.len() {
        idx
    } else if page_body(entries, from, idx).len() > 0 && utf8_len(candidate_page(entries, from, idx))
        > PAGE_BYTE_BUDGET {
        idx
    } else {
        page_end(entries, from, idx + 1)
    }
}

/// The byte length of a page from its parts.
proof fn lemma_page_len(entries: Seq<Seq<char>>, from: int, to: int, next: nat)
    ensures
        utf8_len(page_text(entries, from, to, next)) == 5 + decimal(next).len() + utf8_len(
            page_body(entries, from, to),
        ),
{
    let a = seq!['['];
    let d = decimal(next);
    let b = seq![',', '['];
    let body = page_body(entries, from, to);
    let c = seq![']', ']'];
    lemma_encode_concat(a, d);
    lemma_encode_concat(a + d, b);
    lemma_encode_concat(a + d + b, body);
    lemma_encode_concat(a + d + b + body, c);
    lemma_decimal_utf8_len(next);
    lemma_ascii_utf8_len(a);
    lemma_ascii_utf8_len(b);
    lemma_ascii_utf8_len(c);
}

proof fn lemma_append_entry_len(body: Seq<char>, entry: Seq<char>)
    ensures
        utf8_len(append_entry(body, entry)) == if body.len() == 0 {
            utf8_len(entry)
        } else {
            utf8_len(body) + 1 + utf8_len(entry)
        },
{
    if body.len() > 0 {
        lemma_encode_concat(body, seq![',']);
        lemma_encode_concat(body + seq![','], entry);
        lemma_ascii_utf8_len(seq![',']);
    }
}

/// `out` with the literal pieces of a page around the decimal number and body.
fn push_page(out: &mut String, next: usize, body: &String)
    ensures
        final(out)@ == old(out)@ + seq!['['] + decimal(next as nat) + seq![',', '['] + body@ + seq![
            ']',
            ']',
        ],
{
    let ghost start = out@;
    push_char(out, '[');
    push_decimal_into(out, next);
    push_char(out, ',');
    push_char(out, '[');
    out.append(body.as_str());
    push_char(out, ']');
    push_char(out, ']');
    proof {
        assert(out@ =~= start + seq!['['] + decimal(next as nat) + seq![',', '['] + body@ + seq![
            ']',
            ']',
        ]);
    }
}

fn push_decimal_into(out: &mut String, n: usize)
    ensures
        final(out)@ == old(out)@ + decimal(n as nat),
{
    let d = decimal_string(n);
    out.append(d.as_str());
}

/// Builds one page of `entries` starting at `offset`, stopping before the
/// page would exceed [`PAGE_BYTE_BUDGET`] bytes (always including at least
/// one entry, to guarantee forward progress). Returns the offset the next
/// page should start at, and the page itself as `[nextOffset, [entry, ...]]`.
pub fn format_page(entries: &Vec<String>, offset: usize) -> (page: (usize, String))
    requires
        forall|t: int| 0 <= t < entries.len() ==> utf8_len(#[trigger] entries@[t]@) <= usize::MAX,
    ensures
        page.0 == page_end(views(entries@), offset as int, offset as int),
        page.1@ == page_text(views(entries@), offset as int, page.0 as int, page.0 as nat),
{
    let ghost es = views(entries@);
    let mut idx = offset;
    let mut body = String::new();
    let mut body_len: u128 = 0;
    let mut full = false;
    while idx < entries.len() && !full
        invariant
            es == views(entries@),
            forall|t: int| 0 <= t < entries.len() ==> utf8_len(#[trigger] entries@[t]@) <= usize::MAX,
            offset <= idx,
            idx <= entries.len() || idx == offset,
            body@ == page_body(es, offset as int, idx as int),
            body_len == utf8_len(body@),
            body_len <= usize::MAX,
            full ==> idx < entries.len() && page_end(es, offset as int, idx as int) == idx,
            page_end(es, offset as int, offset as int) == page_end(es, offset as int, idx as int),
        decreases entries.len() - idx + if full { 0int } else { 1int },
    {
        let entry = &entries[idx];
        let entry_len = entry.as_str().len();
        let digits = decimal_string(idx + 1);
        let digits_len = digits.as_str().len();
        let candidate_body_len: u128 = if body_len == 0 {
            entry_len as u128
        } else {
            body_len + 1 + entry_len as u128
        };
        let candidate_len: u128 = 5 + digits_len as u128 + candidate_body_len;
        proof {
            assert(es[idx as int] == entry@);
            lemma_page_len(es, offset as int, idx + 1, (idx + 1) as nat);
            lemma_decimal_utf8_len((idx + 1) as nat);
            lemma_append_entry_len(body@, entry@);
            lemma_utf8_len_at_least(body@);
            assert(body@.len() == 0 ==> body@ =~= Seq::<char>::empty());
            assert(page_body(es, offset as int, idx + 1) == append_entry(body@, es[idx as int]));
            assert(entry_len == utf8_len(entry@));
            lemma_decimal_len_bound((idx + 1) as nat);
            assert(digits_len == utf8_len(decimal((idx + 1) as nat)));
            assert(digits_len == decimal((idx + 1) as nat).len());
            assert(candidate_body_len == utf8_len(append_entry(body@, entry@)));
            assert(candidate_page(es, offset as int, idx as int) == page_text(es, offset as int, idx + 1, (idx + 1) as nat));
            assert(candidate_len == utf8_len(candidate_page(es, offset as int, idx as int)));
        }
        if candidate_len > PAGE_BYTE_BUDGET as u128 && body_len > 0 {
            full = true;
        } else {
            if body_len > 0 {
                push_char(&mut body, ',');
            }
            body.append(entry.as_str());
            body_len = candidate_body_len;
            proof {
                assert(body@ =~= append_entry(page_body(es, offset as int, idx as int), es[idx as int]));
            }
            idx = idx + 1;
        }
    }
    proof {
        assert(page_end(es, offset as int, idx as int) == idx);
    }
    let mut page = String::new();
    push_page(&mut page, idx, &body);
    proof {
        assert(page@ =~= page_text(es, offset as int, idx as int, idx as nat));
    }
    (idx, page)
}


// ----------------------------------------------------------------------------
// Laws of paging
// ----------------------------------------------------------------------------

proof fn lemma_page_end_scan(entries: Seq<Seq<char>>, from: int, idx: int)
    requires
        from <= idx,
    ensures
        idx <= page_end(entries, from, idx),
        idx < entries.len() ==> page_end(entries, from, idx) <= entries.len(),
        forall|j: int|
            idx <= j < page_end(entries, from, idx) ==> j < entries.len() && (page_body(
                entries,
                from,
                j,
            ).len() == 0 || utf8_len(#[trigger] candidate_page(entries, from, j))
                <= PAGE_BYTE_BUDGET),
        page_end(entries, from, idx) < entries.len() ==> page_body(
            entries,
            from,
            page_end(entries, from, idx),
        ).len() > 0 && utf8_len(candidate_page(entries, from, page_end(entries, from, idx)))
            > PAGE_BYTE_BUDGET,
    decreases entries.len() - idx,
{
    if idx < entries.len() && !(page_body(entries, from, idx).len() > 0 && utf8_len(
        candidate_page(entries, from, idx),
    ) > PAGE_BYTE_BUDGET) {
        lemma_page_end_scan(entries, from, idx + 1);
    }
}

/// With non-empty entries, a page body is the entries joined by commas.
pub proof fn lemma_page_body_is_join(entries: Seq<Seq<char>>, from: int, to: int)
    requires
        0 <= from <= to <= entries.len(),
        forall|t: int| 0 <= t < entries.len() ==> (#[trigger] entries[t]).len() > 0,
    ensures
        page_body(entries, from, to) == join(entries.subrange(from, to), seq![',']),
        from < to ==> page_body(entries, from, to).len() > 0,
    decreases to - from,
{
    if from < to {
        lemma_page_body_is_join(entries, from, to - 1);
        let items = entries.subrange(from, to);
        assert(items.drop_last() =~= entries.subrange(from, to - 1));
        assert(items.last() == entries[to - 1]);
        if to - 1 == from {
            assert(page_body(entries, from, to - 1).len() == 0);
            assert(join(items, seq![',']) == items[0]);
        }
    } else {
        assert(entries.subrange(from, to).len() == 0);
    }
}

/// Every page makes progress: starting at an offset before the end, the next
/// offset is past it and not past the end; the page holds exactly the
/// entries between the two offsets.
pub proof fn lemma_page_progress(entries: Seq<Seq<char>>, offset: int)
    requires
        0 <= offset < entries.len(),
    ensures
        offset < page_end(entries, offset, offset) <= entries.len(),
{
    lemma_page_end_scan(entries, offset, offset);
    assert(page_body(entries, offset, offset).len() == 0);
}

/// With non-empty entries (formatted entries always are), a page stays
/// within [`PAGE_BYTE_BUDGET`] bytes unless it holds a single entry (a lone
/// entry larger than the budget still goes out, so paging never stalls).
/// Empty entries would not count as filling a page, so a run of them could
/// ride along in front of an oversized one.
pub proof fn lemma_page_within_budget(entries: Seq<Seq<char>>, offset: int)
    requires
        0 <= offset <= usize::MAX,
        forall|t: int| 0 <= t < entries.len() ==> (#[trigger] entries[t]).len() > 0,
    ensures
        ({
            let next = page_end(entries, offset, offset);
            utf8_len(page_text(entries, offset, next, next as nat)) <= PAGE_BYTE_BUDGET || next
                == offset + 1
        }),
{
    let next = page_end(entries, offset, offset);
    lemma_page_end_scan(entries, offset, offset);
    if offset >= entries.len() {
        assert(next == offset);
        lemma_page_len(entries, offset, offset, offset as nat);
        lemma_decimal_digits_bound(offset as nat);
        assert(page_body(entries, offset, offset).len() == 0);
        assert(page_body(entries, offset, offset) =~= Seq::<char>::empty());
        assert(utf8_len(Seq::<char>::empty()) == 0);
    } else if next > offset + 1 {
        let j = next - 1;
        assert(candidate_page(entries, offset, j) == page_text(entries, offset, next, next as nat));
        lemma_page_body_is_join(entries, offset, j);
    }
}

/// Digits of a `usize`: at most twenty.
proof fn lemma_decimal_digits_bound(n: nat)
    requires
        n <= usize::MAX,
    ensures
        decimal(n).len() <= 20,
{
    reveal_with_fuel(pow10, 21);
    assert(pow10(20) == 100_000_000_000_000_000_000nat);
    lemma_decimal_len_pow(n, 20);
}

proof fn lemma_decimal_len_pow(n: nat, k: nat)
    requires
        k >= 1,
        n < pow10(k),
    ensures
        decimal(n).len() <= k,
    decreases k,
{
    if n >= 10 {
        assert(pow10(k) == 10 * pow10((k - 1) as nat));
        if k == 1 {
            assert(pow10(0) == 1);
        } else {
            assert(n / 10 < pow10((k - 1) as nat));
            lemma_decimal_len_pow(n / 10, (k - 1) as nat);
        }
    }
}

/// Ten to the power `k`.
pub open spec fn pow10(k: nat) -> nat
    decreases k,
{
    if k == 0 {
        1
    } else {
        10 * pow10((k - 1) as nat)
    }
}

/// The entries that paging from `offset` until the end hands out, page by
/// page, in order.
pub open spec fn paged_entries(entries: Seq<Seq<char>>, offset: int) -> Seq<Seq<char>>
    decreases entries.len() - offset,
{
    if offset < 0 || offset >= entries.len() {
        seq![]
    } else {
        let next = page_end(entries, offset, offset);
        if next <= offset || next > entries.len() {
            seq![]
        } else {
            entries.subrange(offset, next) + paged_entries(entries, next)
        }
    }
}

/// Paging from `offset` to exhaustion, each page starting where the last
/// one's `nextOffset` points, hands out every entry from `offset` on exactly
/// once, in order.
pub proof fn lemma_paging_covers_all(entries: Seq<Seq<char>>, offset: int)
    requires
        0 <= offset <= entries.len(),
    ensures
        paged_entries(entries, offset) == entries.subrange(offset, entries.len() as int),
    decreases entries.len() - offset,
{
    if offset < entries.len() {
        lemma_page_progress(entries, offset);
        let next = page_end(entries, offset, offset);
        lemma_paging_covers_all(entries, next);
        assert(entries.subrange(offset, next) + entries.subrange(next, entries.len() as int)
            =~= entries.subrange(offset, entries.len() as int));
    } else {
        assert(entries.subrange(offset, entries.len() as int) =~= Seq::<Seq<char>>::empty());
    }
}


// ----------------------------------------------------------------------------
// Entries
// ----------------------------------------------------------------------------

/// One location as it travels in a page, `[[x,y],a,b,dir,buildings,class]`:
/// the texts of its box's centre, half extents and marker direction, its
/// building count and the wire index of its class.
pub open spec fn entry_text(
    x: Seq<char>,
    y: Seq<char>,
    a: Seq<char>,
    b: Seq<char>,
    dir: Seq<char>,
    buildings: nat,
    class: LocationClass,
) -> Seq<char> {
    seq!['[', '['] + x + seq![','] + y + seq![']', ','] + a + seq![','] + b + seq![','] + dir
        + seq![','] + decimal(buildings) + seq![','] + decimal(class_index(class) as nat) + seq![']']
}

/// The digit that stands for a class on the wire, counting in declaration
/// order: Farm `0`, Hamlet `1`, Village `2`, Town `3`, City `4`.
pub open spec fn class_wire_digit(class: LocationClass) -> char {
    match class {
        LocationClass::Farm => '0',
        LocationClass::Hamlet => '1',
        LocationClass::Village => '2',
        LocationClass::Town => '3',
        LocationClass::City => '4',
    }
}

/// An entry closes with its class: its last field is the single digit of the
/// class's wire index in declaration order (Farm 0 .. City 4), which is
/// `LocationClass::index`, preceded by a comma and followed by `]`.
pub proof fn lemma_entry_ends_with_class(
    x: Seq<char>,
    y: Seq<char>,
    a: Seq<char>,
    b: Seq<char>,
    dir: Seq<char>,
    buildings: nat,
    class: LocationClass,
)
    ensures
        ({
            let e = entry_text(x, y, a, b, dir, buildings, class);
            &&& e.len() >= 3
            &&& e.last() == ']'
            &&& e[e.len() - 3] == ','
            &&& e[e.len() - 2] == class_wire_digit(class)
            &&& e[e.len() - 2] == (48 + class_index(class)) as char
        }),
{
    let e = entry_text(x, y, a, b, dir, buildings, class);
    let d = decimal(class_index(class) as nat);
    assert(d =~= seq![(48 + class_index(class)) as char]);
    let head = seq!['[', '['] + x + seq![','] + y + seq![']', ','] + a + seq![','] + b + seq![',']
        + dir + seq![','] + decimal(buildings);
    assert(e =~= head + seq![','] + d + seq![']']);
    assert(e.len() == head.len() + 3);
    assert(e[e.len() - 3] == ',');
    assert(e[e.len() - 2] == d[0]);
}

/// Formats one location's entry from the texts of its box's numbers (their
/// floating-point formatting is the caller's), its building count and its
/// class.
pub fn format_entry(
    x: &str,
    y: &str,
    a: &str,
    b: &str,
    dir: &str,
    buildings: usize,
    class: LocationClass,
) -> (entry: String)
    ensures
        entry@ == entry_text(x@, y@, a@, b@, dir@, buildings as nat, class),
        entry@.len() >= 3,
        entry@.last() == ']',
        entry@[entry@.len() - 3] == ',',
        entry@[entry@.len() - 2] == class_wire_digit(class),
{
    proof {
        lemma_entry_ends_with_class(x@, y@, a@, b@, dir@, buildings as nat, class);
    }
    let mut out = String::new();
    push_char(&mut out, '[');
    push_char(&mut out, '[');
    out.append(x);
    push_char(&mut out, ',');
    out.append(y);
    push_char(&mut out, ']');
    push_char(&mut out, ',');
    out.append(a);
    push_char(&mut out, ',');
    out.append(b);
    push_char(&mut out, ',');
    out.append(dir);
    push_char(&mut out, ',');
    push_decimal_into(&mut out, buildings);
    push_char(&mut out, ',');
    let index = class.index();
    push_decimal_into(&mut out, index as usize);
    push_char(&mut out, ']');
    proof {
        assert(out@ =~= entry_text(x@, y@, a@, b@, dir@, buildings as nat, class));
    }
    out
}

// ----------------------------------------------------------------------------
// The session
// ----------------------------------------------------------------------------

/// State of the chunked `locations:*` protocol.
pub enum Session<P> {
    /// Accumulating input points (`locations:begin`, `locations:add`).
    Collecting(Vec<P>),
    /// Holding the detection result, one formatted entry per location
    /// (`locations:detect`, then `locations:page`).
    Detected(Vec<String>),
}

/// What a formatted entry always is: non-empty (it is bracketed), with a
/// byte length that a `usize` can count.
pub open spec fn entries_well_formed(entries: Seq<String>) -> bool {
    forall|t: int|
        0 <= t < entries.len() ==> #[trigger] entries[t]@.len() > 0 && utf8_len(entries[t]@)
            <= usize::MAX
}

/// Every held entry is well formed.
pub open spec fn held_entries_well_formed<P>(state: Option<Session<P>>) -> bool {
    match state {
        Some(Session::Detected(entries)) => entries_well_formed(entries@),
        _ => true,
    }
}

/// The extension-wide session of the `locations:*` protocol; invalid call
/// sequences (paging before detecting, adding after detecting) are rejected
/// rather than silently operating on stale data.
pub struct LocationsSession<P> {
    state: Option<Session<P>>,
}

impl<P> LocationsSession<P> {
    #[verifier::type_invariant]
    spec fn well_formed(self) -> bool {
        held_entries_well_formed(self.state)
    }

    /// The session's state: `None` when no session is open.
    pub closed spec fn current(self) -> Option<Session<P>> {
        self.state
    }

    /// No session open.
    pub fn new() -> (session: Self)
        ensures
            session.current() is None,
    {
        LocationsSession { state: None }
    }

    /// `locations:begin`: from any state, starts collecting with no points.
    pub fn locations_begin(&mut self) -> (reply: String)
        ensures
            reply@ == "OK"@,
            final(self).current() matches Some(Session::Collecting(points)) && points@.len() == 0,
    {
        self.state = Some(Session::Collecting(Vec::new()));
        String::from_str("OK")
    }

    /// `locations:add`: while collecting, appends `points` and replies with
    /// the number of points accumulated so far; otherwise an error, the
    /// session unchanged.
    pub fn locations_add(&mut self, points: Vec<P>) -> (reply: Result<String, String>)
        ensures
            match old(self).current() {
                Some(Session::Collecting(before)) => {
                    &&& final(self).current() matches Some(Session::Collecting(after)) && after@
                        == before@ + points@
                    &&& reply matches Ok(count) && count@ == decimal((before@.len() + points@.len()) as nat)
                },
                _ => {
                    &&& final(self).current() == old(self).current()
                    &&& reply matches Err(message) && message@
                        == "locations:add called without an active locations:begin session"@
                },
            },
    {
        proof {
            use_type_invariant(&*self);
        }
        let mut points = points;
        let mut state: Option<Session<P>> = None;
        std::mem::swap(&mut state, &mut self.state);
        match state {
            Some(Session::Collecting(mut accumulated)) => {
                accumulated.append(&mut points);
                let count = decimal_string(accumulated.len());
                self.state = Some(Session::Collecting(accumulated));
                Ok(count)
            },
            other => {
                self.state = other;
                Err(String::from_str("locations:add called without an active locations:begin session"))
            },
        }
    }

    /// First half of `locations:detect`: takes the session (it is closed
    /// afterwards whatever it held) and hands out the collected points for
    /// detection; an error when no points were being collected.
    pub fn locations_detect_take(&mut self) -> (points: Result<Vec<P>, String>)
        ensures
            final(self).current() is None,
            match old(self).current() {
                Some(Session::Collecting(before)) => points matches Ok(taken) && taken@ == before@,
                _ => points matches Err(message) && message@
                    == "locations:detect called without an active locations:begin session"@,
            },
    {
        let mut state: Option<Session<P>> = None;
        std::mem::swap(&mut state, &mut self.state);
        match state {
            Some(Session::Collecting(points)) => Ok(points),
            _ => Err(String::from_str("locations:detect called without an active locations:begin session")),
        }
    }

    /// Second half of `locations:detect`: holds the formatted entries of the
    /// detected locations and replies with their number.
    pub fn locations_detect_store(&mut self, entries: Vec<String>) -> (reply: String)
        requires
            entries_well_formed(entries@),
        ensures
            final(self).current() matches Some(Session::Detected(held)) && held@ == entries@,
            reply@ == decimal(entries@.len()),
    {
        let count = decimal_string(entries.len());
        self.state = Some(Session::Detected(entries));
        count
    }

    /// `locations:page`: after detection, the page of entries starting at
    /// `offset` (see [`format_page`]); otherwise an error. The session is
    /// unchanged.
    pub fn locations_page(&self, offset: usize) -> (reply: Result<String, String>)
        ensures
            match self.current() {
                Some(Session::Detected(entries)) => {
                    let next = page_end(views(entries@), offset as int, offset as int);
                    &&& entries_well_formed(entries@)
                    &&& reply matches Ok(page) && page@ == page_text(
                        views(entries@),
                        offset as int,
                        next,
                        next as nat,
                    )
                    &&& reply matches Ok(page) && (utf8_len(page@) <= PAGE_BYTE_BUDGET || next
                        == offset + 1)
                    &&& offset < entries.len() ==> offset < next <= entries.len()
                },
                _ => reply matches Err(message) && message@
                    == "locations:page called without a completed locations:detect"@,
            },
    {
        proof {
            use_type_invariant(self);
        }
        match &self.state {
            Some(Session::Detected(entries)) => {
                proof {
                    let es = views(entries@);
                    assert forall|t: int| 0 <= t < es.len() implies (#[trigger] es[t]).len() > 0 by {
                        assert(es[t] == entries@[t]@);
                    }
                    lemma_page_within_budget(es, offset as int);
                    if offset < entries.len() {
                        lemma_page_progress(es, offset as int);
                    }
                }
                Ok(format_page(entries, offset).1)
            },
            _ => Err(String::from_str("locations:page called without a completed locations:detect")),
        }
    }

    /// `locations:end`: closes any session.
    pub fn locations_end(&mut self) -> (reply: String)
        ensures
            reply@ == "OK"@,
            final(self).current() is None,
    {
        self.state = None;
        String::from_str("OK")
    }

    /// Registered for the mission's `Ended` event: closes any in-progress
    /// session so a stale one from the previous mission can't be paged or
    /// added to after a mission restart.
    pub fn on_mission_ended(&mut self) -> (reply: String)
        ensures
            reply@ == "OK"@,
            final(self).current() is None,
    {
        self.locations_end()
    }
}

} // verus!
