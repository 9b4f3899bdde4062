//! The versioned text buffer: a bounded ring of immutable rope snapshots
//! (the history) and the buffer that owns it, offering chunked loading and
//! line-break-aware queries over the newest snapshot.

use crate::rope::{
    line_break_count, rope_char_vec, rope_chars, rope_concat, rope_count_lines, rope_from_chars,
    rope_len, rope_new,
};
use persistent_rope::Rope;
use std::collections::VecDeque;
use vstd::prelude::*;

verus! {

/// The characters a byte sequence stands for, one character per byte.
pub open spec fn byte_chars(bs: Seq<u8>) -> Seq<char> {
    bs.map_values(|b: u8| b as char)
}

/// The number of line-break bytes in a byte sequence.
pub open spec fn newline_byte_count(bs: Seq<u8>) -> nat
    decreases bs.len(),
{
    if bs.len() == 0 {
        0
    } else {
        (if bs[0] == 10 {
            1nat
        } else {
            0nat
        }) + newline_byte_count(bs.drop_first())
    }
}

/// A byte stream read one character per byte carries exactly as many
/// line-break characters as it has line-break bytes.
pub proof fn lemma_line_breaks_of_bytes(bs: Seq<u8>)
    ensures
        line_break_count(byte_chars(bs)) == newline_byte_count(bs),
    decreases bs.len(),
{
    if bs.len() > 0 {
        lemma_line_breaks_of_bytes(bs.drop_first());
        assert(byte_chars(bs).drop_first() =~= byte_chars(bs.drop_first()));
        assert((bs[0] as char) == '\n' <==> bs[0] == 10);
    }
}

/// What one write does to the ring of snapshots: the new snapshot enters at
/// the front; once the ring is at capacity the oldest snapshot leaves.
pub open spec fn write_step(ring: Seq<Rope>, cap: nat, snapshot: Rope) -> Seq<Rope> {
    if ring.len() < cap {
        seq![snapshot] + ring
    } else {
        seq![snapshot] + ring.take(cap as int - 1)
    }
}

/// A bounded ring of rope snapshots for one buffer, newest first.
pub struct History {
    versions: VecDeque<Rope>,
    capacity: usize,
}

impl History {
    /// The retained snapshots, newest first.
    pub closed spec fn snapshots(&self) -> Seq<Rope> {
        self.versions@
    }

    /// How many snapshots are retained at most.
    pub closed spec fn capacity(&self) -> nat {
        self.capacity as nat
    }

    /// The ring is never empty and never holds more than its capacity.
    pub open spec fn wf(&self) -> bool {
        1 <= self.snapshots().len() && self.snapshots().len() <= self.capacity()
    }

    pub fn new(initial: Rope, capacity: usize) -> (h: History)
        requires
            capacity >= 1,
        ensures
            h.wf(),
            h.snapshots() == seq![initial],
            h.capacity() == capacity,
    {
        let mut versions: VecDeque<Rope> = VecDeque::new();
        versions.push_front(initial);
        proof {
            assert(versions@ =~= seq![initial]);
        }
        History { versions, capacity }
    }

    /// Read-only access to the newest snapshot.
    pub fn latest(&self) -> (r: &Rope)
        requires
            self.wf(),
        ensures
            *r == self.snapshots()[0],
    {
        &self.versions[0]
    }

    /// The snapshot written `age` writes ago, newest first; `None` once the
    /// ring no longer retains a version that old.
    pub fn version(&self, age: usize) -> (r: Option<&Rope>)
        ensures
            match r {
                Some(s) => age < self.snapshots().len() && *s == self.snapshots()[age as int],
                None => age >= self.snapshots().len(),
            },
    {
        if age < self.versions.len() {
            Some(&self.versions[age])
        } else {
            None
        }
    }

    /// Commits a new snapshot: it becomes the newest entry of the ring, and
    /// the oldest entry leaves if the ring was at capacity. This is the only
    /// way snapshots are added.
    pub fn write(&mut self, snapshot: Rope)
        requires
            old(self).wf(),
        ensures
            final(self).wf(),
            final(self).capacity() == old(self).capacity(),
            final(self).snapshots() == write_step(
                old(self).snapshots(),
                old(self).capacity(),
                snapshot,
            ),
    {
        if self.versions.len() >= self.capacity {
            self.versions.pop_back();
        }
        self.versions.push_front(snapshot);
    }
}

/// History bound: starting from any ring of at most `cap` snapshots, no
/// sequence of writes ever grows the ring beyond `cap`, and after at least
/// one write the newest entry is the most recently written snapshot.
pub proof fn lemma_history_bound(ring: Seq<Rope>, cap: nat, writes: Seq<Rope>)
    requires
        1 <= ring.len() <= cap,
    ensures
        1 <= apply_writes(ring, cap, writes).len() <= cap,
        writes.len() > 0 ==> apply_writes(ring, cap, writes)[0] == writes.last(),
    decreases writes.len(),
{
    if writes.len() > 0 {
        lemma_history_bound(ring, cap, writes.drop_last());
    }
}

/// The ring left by performing the given writes in order, oldest first.
pub open spec fn apply_writes(ring: Seq<Rope>, cap: nat, writes: Seq<Rope>) -> Seq<Rope>
    decreases writes.len(),
{
    if writes.len() == 0 {
        ring
    } else {
        write_step(apply_writes(ring, cap, writes.drop_last()), cap, writes.last())
    }
}

/// Immutability: a write never changes a snapshot already retained; every
/// older entry of the new ring is exactly the snapshot that stood one place
/// earlier before the write.
pub proof fn lemma_write_preserves_snapshots(ring: Seq<Rope>, cap: nat, snapshot: Rope)
    requires
        1 <= cap,
        ring.len() <= cap,
    ensures
        forall|i: int|
            1 <= i < write_step(ring, cap, snapshot).len() ==> write_step(
                ring,
                cap,
                snapshot,
            )[i] == ring[i - 1],
{
    let stepped = write_step(ring, cap, snapshot);
    assert forall|i: int| 1 <= i < stepped.len() implies stepped[i] == ring[i - 1] by {
        if ring.len() < cap {
            assert(stepped == seq![snapshot] + ring);
        } else {
            assert(stepped == seq![snapshot] + ring.take(cap as int - 1));
            assert(ring.take(cap as int - 1)[i - 1] == ring[i - 1]);
        }
    }
}

/// A class of annotated positions within a snapshot, fixed at compile time
/// for this buffer type.
#[derive(PartialEq, Eq, Clone, Copy, Hash)]
pub enum Marker {
    Linebreak,
}

/// A text buffer: a history of rope snapshots plus the identity of the
/// source it was loaded from, if any.
pub struct Buffer {
    source_identity: Option<String>,
    history: History,
}

impl Buffer {
    /// The retained snapshots, newest first.
    pub closed spec fn snapshots(&self) -> Seq<Rope> {
        self.history.snapshots()
    }

    /// How many snapshots the history retains at most.
    pub closed spec fn capacity(&self) -> nat {
        self.history.capacity()
    }

    /// The characters of the newest snapshot.
    pub open spec fn content(&self) -> Seq<char> {
        rope_chars(self.snapshots()[0])
    }

    /// The source the buffer was loaded from, if one was recorded.
    pub closed spec fn source(&self) -> Option<Seq<char>> {
        match self.source_identity {
            Some(s) => Some(s@),
            None => None,
        }
    }

    pub closed spec fn wf(&self) -> bool {
        self.history.wf()
    }

    /// Wraps an initial snapshot in a single-version history.
    pub fn new(initial: Rope) -> (b: Buffer)
        ensures
            b.wf(),
            b.capacity() == 1,
            b.snapshots() == seq![initial],
            b.source() is None,
    {
        Buffer { source_identity: None, history: History::new(initial, 1) }
    }

    /// Wraps an initial snapshot in a history of the given capacity.
    pub fn with_history(initial: Rope, capacity: usize) -> (b: Buffer)
        requires
            capacity >= 1,
        ensures
            b.wf(),
            b.capacity() == capacity,
            b.snapshots() == seq![initial],
            b.source() is None,
    {
        Buffer { source_identity: None, history: History::new(initial, capacity) }
    }

    /// The number of characters of the newest snapshot.
    pub fn len(&self) -> (n: usize)
        requires
            self.wf(),
        ensures
            n == self.content().len(),
    {
        rope_len(self.history.latest())
    }

    /// How many positions of the newest snapshot carry the given marker.
    pub fn marker_count(&self, marker: Marker) -> (n: usize)
        requires
            self.wf(),
        ensures
            n == line_break_count(self.content()),
    {
        match marker {
            Marker::Linebreak => rope_count_lines(self.history.latest()),
        }
    }

    /// Lets a caller inspect the newest snapshot without copying.
    pub fn read(&self) -> (r: &Rope)
        requires
            self.wf(),
        ensures
            *r == self.snapshots()[0],
    {
        self.history.latest()
    }

    /// Commits a snapshot derived from the latest through the history; the
    /// sole editing path.
    pub fn write(&mut self, snapshot: Rope)
        requires
            old(self).wf(),
        ensures
            final(self).wf(),
            final(self).capacity() == old(self).capacity(),
            final(self).source() == old(self).source(),
            final(self).snapshots() == write_step(
                old(self).snapshots(),
                old(self).capacity(),
                snapshot,
            ),
    {
        self.history.write(snapshot);
    }

    /// The snapshot written `age` writes ago, newest first; `None` once the
    /// history no longer retains a version that old.
    pub fn version(&self, age: usize) -> (r: Option<&Rope>)
        ensures
            match r {
                Some(s) => age < self.snapshots().len() && *s == self.snapshots()[age as int],
                None => age >= self.snapshots().len(),
            },
    {
        self.history.version(age)
    }

    /// Records the source identity, once; it is immutable thereafter.
    pub fn set_source(&mut self, name: String)
        requires
            old(self).source() is None,
        ensures
            final(self).source() == Some(name@),
            final(self).snapshots() == old(self).snapshots(),
            final(self).capacity() == old(self).capacity(),
            final(self).wf() == old(self).wf(),
    {
        self.source_identity = Some(name);
    }

    /// The recorded source identity, if any.
    pub fn source_name(&self) -> (r: &Option<String>)
        ensures
            match r {
                Some(s) => self.source() == Some(s@),
                None => self.source() is None,
            },
    {
        &self.source_identity
    }
}

/// Idempotent read: between writes the buffer is unchanged, so any two
/// results of `read` are the same snapshot and observe the same characters.
pub proof fn lemma_read_idempotent(b: &Buffer, r1: &Rope, r2: &Rope)
    requires
        *r1 == b.snapshots()[0],
        *r2 == b.snapshots()[0],
    ensures
        *r1 == *r2,
        rope_chars(*r1) == rope_chars(*r2),
{
}

/// The bytes of all chunks, in order.
pub open spec fn concat_bytes(cs: Seq<Seq<u8>>) -> Seq<u8>
    decreases cs.len(),
{
    if cs.len() == 0 {
        Seq::empty()
    } else {
        concat_bytes(cs.drop_last()) + cs.last()
    }
}

/// The characters standing for a range of a byte vector.
fn chars_of_bytes(data: &Vec<u8>, start: usize, end: usize) -> (v: Vec<char>)
    requires
        start <= end <= data@.len(),
    ensures
        v@ == byte_chars(data@.subrange(start as int, end as int)),
{
    let mut v: Vec<char> = Vec::new();
    let mut i: usize = start;
    proof {
        assert(v@ =~= byte_chars(data@.subrange(start as int, start as int)));
    }
    while i < end
        invariant
            start <= i <= end <= data@.len(),
            v@ == byte_chars(data@.subrange(start as int, i as int)),
        decreases end - i,
    {
        let c = data[i] as char;
        v.push(c);
        proof {
            assert(data@.subrange(start as int, i as int + 1) =~= data@.subrange(
                start as int,
                i as int,
            ).push(data@[i as int]));
            assert(byte_chars(data@.subrange(start as int, i as int + 1)) =~= byte_chars(
                data@.subrange(start as int, i as int),
            ).push(data@[i as int] as char));
        }
        i = i + 1;
    }
    v
}

impl Buffer {
    /// Builds a buffer from a byte stream already split into chunks, as a
    /// pull-based supplier hands them out: the content is the concatenation
    /// of all chunks, one character per byte, independent of how the stream
    /// was cut.
    pub fn from_chunks(chunks: &Vec<Vec<u8>>) -> (b: Buffer)
        ensures
            b.wf(),
            b.capacity() == 1,
            b.snapshots().len() == 1,
            b.content() == byte_chars(concat_bytes(chunks.deep_view())),
            line_break_count(b.content()) == newline_byte_count(concat_bytes(chunks.deep_view())),
            b.source() is None,
    {
        let ghost dv = chunks.deep_view();
        let mut rope = rope_new();
        let mut j: usize = 0;
        proof {
            assert(rope_chars(rope) =~= byte_chars(concat_bytes(dv.take(0))));
        }
        while j < chunks.len()
            invariant
                j <= chunks@.len(),
                dv == chunks.deep_view(),
                rope_chars(rope) == byte_chars(concat_bytes(dv.take(j as int))),
            decreases chunks@.len() - j,
        {
            let c = &chunks[j];
            let cv = chars_of_bytes(c, 0, c.len());
            let cr = rope_from_chars(&cv);
            rope = rope_concat(&rope, &cr);
            proof {
                assert(c@.subrange(0, c@.len() as int) =~= c@);
                assert(dv.take(j as int + 1).drop_last() =~= dv.take(j as int));
                assert(dv.take(j as int + 1).last() == dv[j as int]);
                assert(dv[j as int] =~= c@);
                assert(byte_chars(concat_bytes(dv.take(j as int)) + c@) =~= byte_chars(
                    concat_bytes(dv.take(j as int)),
                ) + byte_chars(c@));
            }
            j = j + 1;
        }
        proof {
            assert(dv.take(chunks@.len() as int) =~= dv);
            lemma_line_breaks_of_bytes(concat_bytes(dv));
        }
        Buffer { source_identity: None, history: History::new(rope, 1) }
    }

    /// Loads a byte stream into a buffer with a history of the given
    /// capacity, cutting the stream into chunks of at most `chunk_size`
    /// bytes and committing them one by one: the content is the whole
    /// stream, one character per byte, whatever the chunk size.
    pub fn load(data: &Vec<u8>, chunk_size: usize, capacity: usize) -> (b: Buffer)
        requires
            chunk_size >= 1,
            capacity >= 1,
        ensures
            b.wf(),
            b.capacity() == capacity,
            b.snapshots().len() == 1,
            b.content() == byte_chars(data@),
            line_break_count(b.content()) == newline_byte_count(data@),
            b.source() is None,
    {
        let mut rope = rope_new();
        let mut i: usize = 0;
        proof {
            assert(rope_chars(rope) =~= byte_chars(data@.take(0)));
        }
        while i < data.len()
            invariant
                chunk_size >= 1,
                i <= data@.len(),
                rope_chars(rope) == byte_chars(data@.take(i as int)),
            decreases data@.len() - i,
        {
            let end = if data.len() - i < chunk_size {
                data.len()
            } else {
                i + chunk_size
            };
            let cv = chars_of_bytes(data, i, end);
            let cr = rope_from_chars(&cv);
            rope = rope_concat(&rope, &cr);
            proof {
                assert(data@.take(end as int) =~= data@.take(i as int) + data@.subrange(
                    i as int,
                    end as int,
                ));
                assert(byte_chars(data@.take(end as int)) =~= byte_chars(data@.take(i as int))
                    + byte_chars(data@.subrange(i as int, end as int)));
            }
            i = end;
        }
        proof {
            assert(data@.take(data@.len() as int) =~= data@);
            lemma_line_breaks_of_bytes(data@);
        }
        Buffer { source_identity: None, history: History::new(rope, capacity) }
    }

    /// Loads a byte stream with the construction-time default history of a
    /// single retained snapshot.
    pub fn from_bytes(data: &Vec<u8>, chunk_size: usize) -> (b: Buffer)
        requires
            chunk_size >= 1,
        ensures
            b.wf(),
            b.capacity() == 1,
            b.snapshots().len() == 1,
            b.content() == byte_chars(data@),
            line_break_count(b.content()) == newline_byte_count(data@),
            b.source() is None,
    {
        Buffer::load(data, chunk_size, 1)
    }
}

/// Where the first line break of a character sequence stands; the length of
/// the sequence where there is none.
pub open spec fn first_break(s: Seq<char>) -> int
    decreases s.len(),
{
    if s.len() == 0 {
        0
    } else if s[0] == '\n' {
        0
    } else {
        1 + first_break(s.drop_first())
    }
}

pub proof fn lemma_first_break_bounds(s: Seq<char>)
    ensures
        0 <= first_break(s) <= s.len(),
    decreases s.len(),
{
    if s.len() > 0 && s[0] != '\n' {
        lemma_first_break_bounds(s.drop_first());
    }
}

/// A position with no break before it, holding a break or the end, is the
/// first break.
pub proof fn lemma_first_break_at(s: Seq<char>, i: int)
    requires
        0 <= i <= s.len(),
        forall|j: int| 0 <= j < i ==> s[j] != '\n',
        i < s.len() ==> s[i] == '\n',
    ensures
        first_break(s) == i,
    decreases i,
{
    if i > 0 {
        lemma_first_break_at(s.drop_first(), i - 1);
    }
}

/// The lines of a character sequence: the break-free segments between line
/// breaks, a final segment only where characters follow the last break.
pub open spec fn split_lines(s: Seq<char>) -> Seq<Seq<char>>
    decreases s.len(),
    via split_lines_decreases
{
    if s.len() == 0 {
        Seq::empty()
    } else {
        let j = first_break(s);
        if j == s.len() {
            seq![s]
        } else {
            seq![s.take(j)] + split_lines(s.skip(j + 1))
        }
    }
}

#[via_fn]
proof fn split_lines_decreases(s: Seq<char>) {
    lemma_first_break_bounds(s);
}

/// Relies on FromIterator<char> for String: a string holding exactly the
/// given characters.
#[verifier::external_body]
fn string_of_chars(v: &Vec<char>) -> (r: String)
    ensures
        r@ == v@,
{
    v.iter().collect()
}

/// The first break at or after `from`, or the end of the text.
fn find_break(v: &Vec<char>, from: usize) -> (r: usize)
    requires
        from <= v@.len(),
    ensures
        from <= r <= v@.len(),
        forall|j: int| from <= j < r ==> v@[j] != '\n',
        r < v@.len() ==> v@[r as int] == '\n',
        r - from == first_break(v@.skip(from as int)),
{
    let mut i: usize = from;
    while i < v.len() && v[i] != '\n'
        invariant
            from <= i <= v@.len(),
            forall|j: int| from <= j < i ==> v@[j] != '\n',
        decreases v@.len() - i,
    {
        i = i + 1;
    }
    proof {
        let s2 = v@.skip(from as int);
        assert forall|j: int| 0 <= j < i - from implies s2[j] != '\n' by {
            assert(s2[j] == v@[from + j]);
        }
        lemma_first_break_at(s2, i - from);
    }
    i
}

/// The characters of a range of the text.
fn copy_range(v: &Vec<char>, start: usize, end: usize) -> (r: Vec<char>)
    requires
        start <= end <= v@.len(),
    ensures
        r@ == v@.subrange(start as int, end as int),
{
    let mut r: Vec<char> = Vec::new();
    let mut i: usize = start;
    proof {
        assert(r@ =~= v@.subrange(start as int, start as int));
    }
    while i < end
        invariant
            start <= i <= end <= v@.len(),
            r@ == v@.subrange(start as int, i as int),
        decreases end - i,
    {
        let c = v[i];
        r.push(c);
        proof {
            assert(v@.subrange(start as int, i as int + 1) =~= v@.subrange(
                start as int,
                i as int,
            ).push(v@[i as int]));
        }
        i = i + 1;
    }
    r
}

/// The text of the given 0-based line of the characters, if that line
/// exists.
fn line_from_chars(v: &Vec<char>, line: usize) -> (r: Option<String>)
    ensures
        match r {
            Some(text) => (line as int) < split_lines(v@).len() && text@ == split_lines(
                v@,
            )[line as int],
            None => (line as int) >= split_lines(v@).len(),
        },
{
    let mut start: usize = 0;
    let mut k: usize = 0;
    proof {
        assert(v@.skip(0) =~= v@);
    }
    while k < line
        invariant
            start <= v@.len(),
            k <= line,
            split_lines(v@).len() == k + split_lines(v@.skip(start as int)).len(),
            forall|m: int|
                0 <= m < split_lines(v@.skip(start as int)).len() ==> split_lines(v@)[k + m]
                    == #[trigger] split_lines(v@.skip(start as int))[m],
        decreases line - k,
    {
        let end = find_break(v, start);
        let ghost s2 = v@.skip(start as int);
        if end >= v.len() {
            proof {
                if s2.len() > 0 {
                    assert(first_break(s2) == s2.len());
                    assert(split_lines(s2) == seq![s2]);
                }
                assert(split_lines(v@).len() <= k + 1);
            }
            return None;
        }
        proof {
            let j = first_break(s2);
            assert(j == end - start);
            assert(s2.len() > 0);
            assert(split_lines(s2) == seq![s2.take(j)] + split_lines(s2.skip(j + 1)));
            assert(v@.skip(end as int + 1) =~= s2.skip(j + 1));
            assert forall|m: int|
                0 <= m < split_lines(v@.skip(end as int + 1)).len() implies split_lines(v@)[k + 1
                + m] == #[trigger] split_lines(v@.skip(end as int + 1))[m] by {
                assert(split_lines(s2)[m + 1] == split_lines(s2.skip(j + 1))[m]);
            }
        }
        start = end + 1;
        k = k + 1;
    }
    let end = find_break(v, start);
    let ghost s2 = v@.skip(start as int);
    if start >= v.len() {
        proof {
            assert(s2.len() == 0);
            assert(split_lines(v@).len() == k);
        }
        None
    } else {
        proof {
            let j = first_break(s2);
            assert(j == end - start);
            if j == s2.len() {
                assert(split_lines(s2) == seq![s2]);
                assert(s2 =~= s2.take(j));
            } else {
                assert(split_lines(s2) == seq![s2.take(j)] + split_lines(s2.skip(j + 1)));
            }
            assert(split_lines(s2)[0] == s2.take(j));
            assert(s2.take(j) =~= v@.subrange(start as int, end as int));
            assert(split_lines(v@)[line as int] == v@.subrange(start as int, end as int));
        }
        let seg = copy_range(v, start, end);
        Some(string_of_chars(&seg))
    }
}

/// Line lookup: what every byte-oriented text buffer exposes.
pub trait GetLine {
    /// Whether the lines of this value may be looked up.
    spec fn lines_wf(&self) -> bool;

    /// The characters whose lines are looked up.
    spec fn line_source(&self) -> Seq<char>;

    /// The text of the given 0-based line if present, nothing otherwise.
    fn get_line(&self, line: usize) -> (r: Option<Box<String>>)
        requires
            self.lines_wf(),
        ensures
            match r {
                Some(text) => (line as int) < split_lines(self.line_source()).len() && text@
                    == split_lines(self.line_source())[line as int],
                None => (line as int) >= split_lines(self.line_source()).len(),
            },
    ;
}

impl GetLine for Buffer {
    open spec fn lines_wf(&self) -> bool {
        self.wf()
    }

    open spec fn line_source(&self) -> Seq<char> {
        self.content()
    }

    fn get_line(&self, line: usize) -> (r: Option<Box<String>>) {
        let snapshot = self.read();
        let v = rope_char_vec(snapshot);
        match line_from_chars(&v, line) {
            Some(text) => Some(Box::new(text)),
            None => None,
        }
    }
}

} // verus!
