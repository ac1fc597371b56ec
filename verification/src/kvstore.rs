//! The log-structured storage engine.
//!
//! The engine's state is a sequence of append-only segments, an in-memory
//! index from keys to record positions, and two counters that drive
//! compaction.  The meaning of that state is given by [`replay`]: folding
//! every record of every segment, oldest first, into a key-to-value map.
//! Every operation keeps the invariant that the index, the counters and the
//! observable map are exactly what replaying the segments yields, which is
//! what makes recovery after a restart faithful.
//!
//! Recovery replays segments in ascending identifier order, so that order
//! must be the order the segments were written in.  Identifiers therefore
//! ascend between compactions, and compaction — which replaces every
//! segment anyway — renumbers its output from zero, recovering the
//! sixteen-bit identifier space each time it runs.  Compaction is thus
//! always possible; only the mid-run rotation of an oversized active
//! segment needs a fresh identifier, and when none is left the next
//! oversized write compacts instead of rotating.

use vstd::prelude::*;
use vstd::string::StrSliceExecFns;

use crate::KvError;
use crate::codec::{
    Command, CommandView, MAX_TEXT, NEWLINE_BYTE, decode_command, encode_command, encoded_line,
    lemma_encoded_line_shape, lemma_parse_encoded_line, lemma_parse_line_sound, parse_line,
    valid_command, valid_text,
};

verus! {

/// Segment identifiers live in a sixteen-bit space; an identifier is
/// always below this bound.
pub const MAX_FILE_ID: usize = 65536;

/// Once the active segment grows past this many bytes, the next write goes
/// to a fresh segment.
pub const MAX_FILE_SIZE: usize = 1048576;

/// One append-only segment: its numeric identifier and its byte content.
#[derive(Debug)]
pub struct Segment {
    /// The number in the segment's file name.
    pub id: usize,
    /// The raw bytes of the segment, a sequence of encoded records.
    pub data: Vec<u8>,
}

/// Mathematical form of a segment.
pub struct SegmentView {
    pub id: int,
    pub data: Seq<u8>,
}

impl View for Segment {
    type V = SegmentView;

    open spec fn view(&self) -> SegmentView {
        SegmentView { id: self.id as int, data: self.data@ }
    }
}

/// The views of a sequence of segments.
pub open spec fn seg_views(ss: Seq<Segment>) -> Seq<SegmentView> {
    Seq::new(ss.len(), |i: int| ss[i]@)
}

/// Where a record sits on disk: which segment, and at which byte offset.
#[derive(Debug, Clone, Copy, PartialEq, Eq, Structural)]
pub struct CommandPosition {
    /// Identifier of the segment holding the record.
    pub file_id: usize,
    /// Byte offset of the record's first byte within that segment.
    pub pos: u64,
}

/// Spec-level record location: segment, offset, and encoded length.
pub struct RecordInfo {
    pub file_id: int,
    pub off: int,
    pub len: int,
}

/// The state accumulated by replaying records: the position table, the
/// observable key-to-value map, and the dead-record counter.
pub struct ReplayState {
    pub table: Map<Seq<char>, RecordInfo>,
    pub model: Map<Seq<char>, Seq<char>>,
    pub uncompacted: int,
}

/// Addition capped at `u64::MAX`, mirroring the saturating counters of the
/// engine.
pub open spec fn sat_add64(a: int, b: int) -> int {
    if a + b > u64::MAX {
        u64::MAX as int
    } else {
        a + b
    }
}

/// Doubling capped at `u64::MAX`: how the compaction threshold grows.
pub open spec fn dbl_threshold(t: int) -> int {
    if 2 * t > u64::MAX {
        u64::MAX as int
    } else {
        2 * t
    }
}

/// The empty replay state: nothing on disk yet.
pub open spec fn init_replay() -> ReplayState {
    ReplayState { table: Map::empty(), model: Map::empty(), uncompacted: 0 }
}

/// Folds one record into the replay state.  An insertion that replaces a
/// live key leaves a dead record behind; a tombstone leaves two.
pub open spec fn apply_record(
    st: ReplayState,
    c: CommandView,
    file_id: int,
    off: int,
    len: int,
) -> ReplayState {
    match c {
        CommandView::Insertion { key, value } => ReplayState {
            table: st.table.insert(key, RecordInfo { file_id, off, len }),
            model: st.model.insert(key, value),
            uncompacted: if st.table.contains_key(key) {
                sat_add64(st.uncompacted, 1)
            } else {
                st.uncompacted
            },
        },
        CommandView::Discard { key } => ReplayState {
            table: st.table.remove(key),
            model: st.model.remove(key),
            uncompacted: sat_add64(st.uncompacted, 2),
        },
    }
}

/// Index of the first newline at or after `i`, if any.
pub open spec fn find_nl(data: Seq<u8>, i: int) -> Option<int>
    decreases data.len() - i,
{
    if i < 0 || i >= data.len() {
        None
    } else if data[i] == NEWLINE_BYTE {
        Some(i)
    } else {
        find_nl(data, i + 1)
    }
}

/// What a found newline means: it is in range, it is a newline, and no
/// earlier byte from `i` on is one.
pub proof fn lemma_find_nl_sound(data: Seq<u8>, i: int)
    requires
        find_nl(data, i) is Some,
    ensures
        ({
            let j = find_nl(data, i)->Some_0;
            &&& 0 <= i <= j < data.len()
            &&& data[j] == NEWLINE_BYTE
            &&& forall|m: int| i <= m < j ==> data[m] != NEWLINE_BYTE
        }),
    decreases data.len() - i,
{
    if data[i] != NEWLINE_BYTE {
        lemma_find_nl_sound(data, i + 1);
    }
}

/// A newline with no earlier newline is the one that is found.
pub proof fn lemma_find_nl_complete(data: Seq<u8>, i: int, j: int)
    requires
        0 <= i <= j < data.len(),
        data[j] == NEWLINE_BYTE,
        forall|m: int| i <= m < j ==> data[m] != NEWLINE_BYTE,
    ensures
        find_nl(data, i) == Some(j),
    decreases j - i,
{
    if i < j {
        lemma_find_nl_complete(data, i + 1, j);
    }
}

/// Appending bytes to a segment does not move a newline that was already
/// found.
pub proof fn lemma_find_nl_extend(data: Seq<u8>, ext: Seq<u8>, i: int)
    requires
        find_nl(data, i) is Some,
    ensures
        find_nl(data + ext, i) == find_nl(data, i),
{
    let j = find_nl(data, i)->Some_0;
    lemma_find_nl_sound(data, i);
    assert((data + ext)[j] == NEWLINE_BYTE);
    assert(forall|m: int| i <= m < j ==> (data + ext)[m] != NEWLINE_BYTE);
    lemma_find_nl_complete(data + ext, i, j);
}

/// Replays one segment from byte offset `i` to its end.  Fails when the
/// tail is not a sequence of well-formed record lines.
pub open spec fn run_seg(st: ReplayState, id: int, data: Seq<u8>, i: int) -> Option<ReplayState>
    decreases data.len() - i,
    via run_seg_decreases
{
    if i == data.len() {
        Some(st)
    } else if i < 0 || i > data.len() {
        None
    } else {
        match find_nl(data, i) {
            None => None,
            Some(j) => {
                let line = data.subrange(i, j + 1);
                match parse_line(line) {
                    None => None,
                    Some(c) => run_seg(apply_record(st, c, id, i, j + 1 - i), id, data, j + 1),
                }
            },
        }
    }
}

#[via_fn]
proof fn run_seg_decreases(st: ReplayState, id: int, data: Seq<u8>, i: int) {
    if 0 <= i < data.len() && find_nl(data, i) is Some {
        lemma_find_nl_sound(data, i);
    }
}

/// Replays the segments from index `k` on, oldest first.
pub open spec fn run_segs(st: ReplayState, ss: Seq<SegmentView>, k: int) -> Option<ReplayState>
    decreases ss.len() - k,
{
    if k == ss.len() {
        Some(st)
    } else if k < 0 || k > ss.len() {
        None
    } else {
        match run_seg(st, ss[k].id, ss[k].data, 0) {
            None => None,
            Some(st2) => run_segs(st2, ss, k + 1),
        }
    }
}

/// The meaning of a whole directory of segments: replay everything from the
/// empty state.
pub open spec fn replay(ss: Seq<SegmentView>) -> Option<ReplayState> {
    run_segs(init_replay(), ss, 0)
}


/// Replaying from index `k` is replaying the suffix from its start.
pub proof fn lemma_run_segs_skip(st: ReplayState, ss: Seq<SegmentView>, k: int)
    requires
        0 <= k <= ss.len(),
    ensures
        run_segs(st, ss, k) == run_segs(st, ss.skip(k), 0),
    decreases ss.len() - k,
{
    if k == ss.len() {
        assert(ss.skip(k).len() == 0);
    } else {
        assert(ss.skip(k)[0] == ss[k]);
        match run_seg(st, ss[k].id, ss[k].data, 0) {
            None => {},
            Some(st2) => {
                lemma_run_segs_skip(st2, ss, k + 1);
                assert(ss.skip(k).skip(1) =~= ss.skip(k + 1));
                assert(run_segs(st2, ss.skip(k), 1) == run_segs(st2, ss.skip(k).skip(1), 0)) by {
                    lemma_run_segs_skip(st2, ss.skip(k), 1);
                }
            },
        }
    }
}

/// Replaying all segments is replaying all but the last, then the last.
pub proof fn lemma_run_segs_split_last(st: ReplayState, ss: Seq<SegmentView>)
    requires
        ss.len() >= 1,
    ensures
        run_segs(st, ss, 0) == (match run_segs(st, ss.drop_last(), 0) {
            None => None,
            Some(st1) => run_seg(st1, ss.last().id, ss.last().data, 0),
        }),
    decreases ss.len(),
{
    if ss.len() == 1 {
        assert(ss.drop_last().len() == 0);
    } else {
        let front = ss.drop_last();
        assert(front[0] == ss[0]);
        match run_seg(st, ss[0].id, ss[0].data, 0) {
            None => {},
            Some(st2) => {
                lemma_run_segs_skip(st2, ss, 1);
                lemma_run_segs_skip(st2, front, 1);
                assert(run_segs(st, ss, 0) == run_segs(st2, ss, 1));
                assert(run_segs(st, front, 0) == run_segs(st2, front, 1));
                assert(front.skip(1) =~= ss.skip(1).drop_last());
                assert(ss.skip(1).last() == ss.last());
                lemma_run_segs_split_last(st2, ss.skip(1));
                assert(run_segs(st2, ss.skip(1), 0) == (match run_segs(
                    st2,
                    front.skip(1),
                    0,
                ) {
                    None => None,
                    Some(st1) => run_seg(st1, ss.last().id, ss.last().data, 0),
                }));
            },
        }
    }
}

/// Appending one canonical record line to a segment replays to one more
/// application of that record, at the old end of the segment: reading a
/// segment back yields exactly the records appended to it, in order.
pub proof fn lemma_run_seg_append(
    st: ReplayState,
    id: int,
    data: Seq<u8>,
    line: Seq<u8>,
    c: CommandView,
    i: int,
)
    requires
        0 <= i,
        run_seg(st, id, data, i) is Some,
        valid_command(c),
        line == encoded_line(c),
    ensures
        run_seg(st, id, data + line, i) == Some(
            apply_record(
                run_seg(st, id, data, i)->Some_0,
                c,
                id,
                data.len() as int,
                line.len() as int,
            ),
        ),
    decreases data.len() - i,
{
    let full = data + line;
    lemma_encoded_line_shape(c);
    if i == data.len() {
        let end = i + line.len() - 1;
        assert(full[end] == line[line.len() - 1]);
        assert(forall|m: int| i <= m < end ==> #[trigger] full[m] == line[m - i]);
        lemma_find_nl_complete(full, i, end);
        assert(full.subrange(i, i + line.len()) =~= line);
        lemma_parse_encoded_line(c);
        assert(run_seg(st, id, full, i) == run_seg(
            apply_record(st, c, id, i, line.len() as int),
            id,
            full,
            i + line.len(),
        ));
        assert(i + line.len() == full.len());
    } else {
        let j = find_nl(data, i)->Some_0;
        lemma_find_nl_sound(data, i);
        lemma_find_nl_extend(data, line, i);
        assert(full.subrange(i, j + 1) =~= data.subrange(i, j + 1));
        let c2 = parse_line(data.subrange(i, j + 1))->Some_0;
        lemma_run_seg_append(apply_record(st, c2, id, i, j + 1 - i), id, data, line, c, j + 1);
    }
}

/// A record's location: some segment carries exactly this line at this
/// offset, with the line's newline the first one from the offset on.
pub open spec fn record_at(ss: Seq<SegmentView>, info: RecordInfo, line: Seq<u8>) -> bool {
    exists|x: int|
        0 <= x < ss.len() && (#[trigger] ss[x].id) == info.file_id && 0 <= info.off && info.off
            + info.len <= ss[x].data.len() && ss[x].data.subrange(info.off, info.off + info.len)
            == line && find_nl(ss[x].data, info.off) == Some(info.off + info.len - 1)
}

/// The replayed position table is truthful: every live key's entry points
/// at a stored insertion line carrying exactly that key and its current
/// value.
pub open spec fn table_ok(ss: Seq<SegmentView>, st: ReplayState) -> bool {
    &&& forall|k: Seq<char>| #[trigger] st.model.contains_key(k) ==> st.table.contains_key(k)
    &&& forall|k: Seq<char>| #[trigger] st.table.contains_key(k) ==> {
        &&& st.model.contains_key(k)
        &&& valid_text(k)
        &&& valid_text(st.model[k])
        &&& record_at(
            ss,
            st.table[k],
            encoded_line(CommandView::Insertion { key: k, value: st.model[k] }),
        )
    }
}

/// Folding one well-placed record preserves table truthfulness.
proof fn lemma_apply_preserves_table_ok(
    ss: Seq<SegmentView>,
    st: ReplayState,
    c: CommandView,
    x: int,
    off: int,
    len: int,
)
    requires
        table_ok(ss, st),
        valid_command(c),
        0 <= x < ss.len(),
        0 <= off,
        off + len <= ss[x].data.len(),
        ss[x].data.subrange(off, off + len) == encoded_line(c),
        find_nl(ss[x].data, off) == Some(off + len - 1),
    ensures
        table_ok(ss, apply_record(st, c, ss[x].id, off, len)),
{
    let st2 = apply_record(st, c, ss[x].id, off, len);
    match c {
        CommandView::Insertion { key, value } => {
            assert forall|k: Seq<char>| #[trigger] st2.table.contains_key(k) implies {
                &&& st2.model.contains_key(k)
                &&& valid_text(k)
                &&& valid_text(st2.model[k])
                &&& record_at(
                    ss,
                    st2.table[k],
                    encoded_line(CommandView::Insertion { key: k, value: st2.model[k] }),
                )
            } by {
                if k == key {
                    assert(0 <= x < ss.len() && ss[x].id == st2.table[k].file_id);
                } else {
                    assert(st.table.contains_key(k));
                }
            }
        },
        CommandView::Discard { key } => {
            assert forall|k: Seq<char>| #[trigger] st2.table.contains_key(k) implies {
                &&& st2.model.contains_key(k)
                &&& valid_text(k)
                &&& valid_text(st2.model[k])
                &&& record_at(
                    ss,
                    st2.table[k],
                    encoded_line(CommandView::Insertion { key: k, value: st2.model[k] }),
                )
            } by {
                assert(st.table.contains_key(k));
            }
        },
    }
}

/// Replaying a stored segment preserves table truthfulness.
proof fn lemma_run_seg_table_ok(ss: Seq<SegmentView>, x: int, st: ReplayState, i: int)
    requires
        0 <= x < ss.len(),
        0 <= i,
        table_ok(ss, st),
        run_seg(st, ss[x].id, ss[x].data, i) is Some,
    ensures
        table_ok(ss, run_seg(st, ss[x].id, ss[x].data, i)->Some_0),
    decreases ss[x].data.len() - i,
{
    let data = ss[x].data;
    if i == data.len() {
    } else {
        let j = find_nl(data, i)->Some_0;
        lemma_find_nl_sound(data, i);
        let line = data.subrange(i, j + 1);
        let c = parse_line(line)->Some_0;
        lemma_parse_line_sound(line);
        lemma_apply_preserves_table_ok(ss, st, c, x, i, j + 1 - i);
        lemma_run_seg_table_ok(ss, x, apply_record(st, c, ss[x].id, i, j + 1 - i), j + 1);
    }
}

/// Replaying a suffix of the segments preserves table truthfulness.
proof fn lemma_run_segs_table_ok(ss: Seq<SegmentView>, st: ReplayState, k: int)
    requires
        0 <= k,
        table_ok(ss, st),
        run_segs(st, ss, k) is Some,
    ensures
        table_ok(ss, run_segs(st, ss, k)->Some_0),
    decreases ss.len() - k,
{
    if k == ss.len() {
    } else {
        lemma_run_seg_table_ok(ss, k, st, 0);
        lemma_run_segs_table_ok(ss, run_seg(st, ss[k].id, ss[k].data, 0)->Some_0, k + 1);
    }
}

/// What a successful replay guarantees about its position table.
pub proof fn lemma_replay_table_ok(ss: Seq<SegmentView>)
    requires
        replay(ss) is Some,
    ensures
        table_ok(ss, replay(ss)->Some_0),
{
    assert(table_ok(ss, init_replay()));
    lemma_run_segs_table_ok(ss, init_replay(), 0);
}


/// When no newline remains, none is found.
pub proof fn lemma_find_nl_none(data: Seq<u8>, i: int)
    requires
        forall|m: int| i <= m < data.len() ==> data[m] != NEWLINE_BYTE,
    ensures
        find_nl(data, i) is None,
    decreases data.len() - i,
{
    if 0 <= i && i < data.len() {
        lemma_find_nl_none(data, i + 1);
    }
}

/// Saturating addition on the engine's counters.
fn sat_add_u64(a: u64, b: u64) -> (r: u64)
    ensures
        r as int == sat_add64(a as int, b as int),
{
    if a > u64::MAX - b {
        u64::MAX
    } else {
        a + b
    }
}

/// Appends all bytes of `src` to `dst`.
fn append_bytes(dst: &mut Vec<u8>, src: &Vec<u8>)
    ensures
        final(dst)@ == old(dst)@ + src@,
{
    let n = src.len();
    let mut i: usize = 0;
    while i < n
        invariant
            n == src@.len(),
            0 <= i <= n,
            dst@ == old(dst)@ + src@.take(i as int),
        decreases n - i,
    {
        dst.push(src[i]);
        assert(dst@ =~= old(dst)@ + src@.take(i + 1));
        i = i + 1;
    }
    assert(old(dst)@ + src@.take(n as int) =~= old(dst)@ + src@);
}

/// Compares two printable-ASCII strings for equality of their characters.
pub(crate) fn str_eq_ascii(a: &str, b: &str) -> (r: bool)
    requires
        vstd::utf8::is_ascii_chars(a@),
        vstd::utf8::is_ascii_chars(b@),
        a@.len() <= MAX_TEXT,
        b@.len() <= MAX_TEXT,
    ensures
        r == (a@ == b@),
{
    proof {
        crate::codec::ascii_len_is_char_len(a);
        crate::codec::ascii_len_is_char_len(b);
    }
    let la = a.len();
    let lb = b.len();
    if la != lb {
        assert(a@ != b@);
        return false;
    }
    let mut i: usize = 0;
    while i < la
        invariant
            vstd::utf8::is_ascii_chars(a@),
            vstd::utf8::is_ascii_chars(b@),
            la == a@.len(),
            la == b@.len(),
            0 <= i <= la,
            forall|m: int| 0 <= m < i ==> a@[m] == b@[m],
        decreases la - i,
    {
        let ca = a.get_ascii(i);
        let cb = b.get_ascii(i);
        if ca != cb {
            assert(a@[i as int] != b@[i as int]);
            return false;
        }
        assert(a@[i as int] == b@[i as int]) by {
            assert(a@[i as int] as u8 == b@[i as int] as u8);
            assert('\0' <= a@[i as int] <= '\u{7f}');
            assert('\0' <= b@[i as int] <= '\u{7f}');
        }
        i = i + 1;
    }
    assert(a@ =~= b@);
    true
}

/// Reads one full line starting at byte `off`: everything up to and
/// including the first newline.
fn read_line_at(data: &Vec<u8>, off: usize) -> (r: Option<Vec<u8>>)
    ensures
        match r {
            Some(line) => {
                &&& find_nl(data@, off as int) == Some(off + line@.len() - 1)
                &&& line@.len() >= 1
                &&& off + line@.len() <= data@.len()
                &&& line@ == data@.subrange(off as int, off + line@.len())
            },
            None => find_nl(data@, off as int) is None,
        },
{
    let mut acc: Vec<u8> = Vec::new();
    let mut i: usize = off;
    loop
        invariant
            off <= i,
            i <= data@.len() || i == off,
            acc@.len() == i - off,
            forall|m: int| off <= m < i ==> #[trigger] data@[m] != NEWLINE_BYTE,
            forall|m: int| off <= m < i ==> acc@[m - off] == data@[m],
        decreases data@.len() - i,
    {
        if i >= data.len() {
            proof {
                lemma_find_nl_none(data@, off as int);
            }
            return None;
        }
        let b = data[i];
        acc.push(b);
        if b == NEWLINE_BYTE {
            proof {
                lemma_find_nl_complete(data@, off as int, i as int);
                assert(acc@ =~= data@.subrange(off as int, i + 1));
            }
            return Some(acc);
        }
        i = i + 1;
    }
}


/// The in-memory key index: a hash map from keys to record positions,
/// paired with a vector of the live keys so that compaction can walk them.
pub struct KeyIndex {
    map: vstd::hash_map::StringHashMap<CommandPosition>,
    keys: Vec<String>,
}

impl View for KeyIndex {
    type V = Map<Seq<char>, CommandPosition>;

    closed spec fn view(&self) -> Map<Seq<char>, CommandPosition> {
        self.map@
    }
}

impl KeyIndex {
    /// The live keys, in insertion order.
    pub closed spec fn key_seq(&self) -> Seq<Seq<char>> {
        Seq::new(self.keys@.len(), |i: int| self.keys@[i]@)
    }

    /// The key vector carries each key of the map exactly once, and every
    /// key is printable ASCII of bounded length.
    pub closed spec fn inv(&self) -> bool {
        &&& forall|i: int, j: int|
            0 <= i < j < self.key_seq().len() ==> self.key_seq()[i] != self.key_seq()[j]
        &&& forall|i: int|
            0 <= i < self.key_seq().len() ==> self@.contains_key(#[trigger] self.key_seq()[i])
        &&& forall|i: int|
            0 <= i < self.key_seq().len() ==> vstd::utf8::is_ascii_chars(
                #[trigger] self.key_seq()[i],
            ) && self.key_seq()[i].len() <= MAX_TEXT
        &&& forall|k: Seq<char>|
            #[trigger] self@.contains_key(k) ==> exists|i: int|
                0 <= i < self.key_seq().len() && self.key_seq()[i] == k
    }

    /// Creates an empty index.
    pub fn new() -> (r: KeyIndex)
        ensures
            r.inv(),
            r@ == Map::<Seq<char>, CommandPosition>::empty(),
            r.key_seq() == Seq::<Seq<char>>::empty(),
    {
        let r = KeyIndex { map: vstd::hash_map::StringHashMap::new(), keys: Vec::new() };
        assert(r.key_seq() =~= Seq::<Seq<char>>::empty());
        r
    }

    /// How many live keys there are.
    pub fn keys_len(&self) -> (n: usize)
        ensures
            n == self.key_seq().len(),
    {
        self.keys.len()
    }

    /// The `i`-th live key.
    pub fn key_at(&self, i: usize) -> (k: &String)
        requires
            self.inv(),
            i < self.key_seq().len(),
        ensures
            k@ == self.key_seq()[i as int],
            self@.contains_key(k@),
    {
        &self.keys[i]
    }


    /// Looks a key up.
    pub fn get(&self, key: &str) -> (r: Option<CommandPosition>)
        ensures
            match r {
                Some(p) => self@.contains_key(key@) && p == self@[key@],
                None => !self@.contains_key(key@),
            },
    {
        match self.map.get(key) {
            Some(p) => Some(*p),
            None => None,
        }
    }

    /// Inserts or replaces a key's position.  Returns whether the key was
    /// already live.
    pub fn insert(&mut self, key: String, pos: CommandPosition) -> (had: bool)
        requires
            old(self).inv(),
            vstd::utf8::is_ascii_chars(key@),
            key@.len() <= MAX_TEXT,
        ensures
            final(self).inv(),
            final(self)@ == old(self)@.insert(key@, pos),
            had == old(self)@.contains_key(key@),
            final(self).key_seq() == if had {
                old(self).key_seq()
            } else {
                old(self).key_seq().push(key@)
            },
    {
        let had = self.map.contains_key(key.as_str());
        if !had {
            let key2 = key.clone();
            self.keys.push(key2);
            assert(self.key_seq() =~= old(self).key_seq().push(key@));
        } else {
            assert(self.key_seq() =~= old(self).key_seq());
        }
        self.map.insert(key, pos);
        proof {
            let ks = self.key_seq();
            let n = old(self).key_seq().len() as int;
            assert forall|k: Seq<char>| #[trigger] self@.contains_key(k) implies exists|i: int|
                0 <= i < ks.len() && ks[i] == k by {
                if !had && k == key@ {
                    assert(ks[n] == k);
                } else {
                    assert(old(self)@.contains_key(k));
                    let i = choose|i: int|
                        0 <= i < old(self).key_seq().len() && old(self).key_seq()[i] == k;
                    assert(old(self).key_seq()[i] == ks[i]);
                    assert(ks[i] == k);
                }
            }
        }
        had
    }

    /// Removes a key, if live.
    pub fn remove(&mut self, key: &str)
        requires
            old(self).inv(),
            vstd::utf8::is_ascii_chars(key@),
            key@.len() <= MAX_TEXT,
        ensures
            final(self).inv(),
            final(self)@ == old(self)@.remove(key@),
    {
        let n = self.keys.len();
        let mut i: usize = 0;
        while i < n
            invariant
                old(self).inv(),
                *self == *old(self),
                vstd::utf8::is_ascii_chars(key@),
                key@.len() <= MAX_TEXT,
                n == self.key_seq().len(),
                0 <= i <= n,
                forall|m: int| 0 <= m < i ==> self.key_seq()[m] != key@,
            decreases n - i,
        {
            proof {
                assert(self.key_seq()[i as int] == self.keys@[i as int]@);
                assert(vstd::utf8::is_ascii_chars(self.key_seq()[i as int]));
            }
            let eq = str_eq_ascii(self.keys[i].as_str(), key);
            if eq {
                self.keys.remove(i);
                self.map.remove(key);
                proof {
                    let oks = old(self).key_seq();
                    let ks = self.key_seq();
                    assert(ks =~= oks.remove(i as int));
                    assert forall|a: int, b: int| 0 <= a < b < ks.len() implies ks[a]
                        != ks[b] by {
                        if b < i {
                            assert(ks[a] == oks[a] && ks[b] == oks[b]);
                        } else if a < i {
                            assert(ks[a] == oks[a] && ks[b] == oks[b + 1]);
                        } else {
                            assert(ks[a] == oks[a + 1] && ks[b] == oks[b + 1]);
                        }
                    }
                    assert forall|k: Seq<char>| #[trigger] self@.contains_key(k) implies exists|
                        m: int,
                    | 0 <= m < ks.len() && ks[m] == k by {
                        assert(old(self)@.contains_key(k) && k != key@);
                        let m0 = choose|m0: int| 0 <= m0 < oks.len() && oks[m0] == k;
                        if m0 < i {
                            assert(ks[m0] == k);
                        } else {
                            assert(oks[i as int] == key@);
                            assert(m0 != i);
                            assert(ks[m0 - 1] == k);
                        }
                    }
                    assert forall|m: int| 0 <= m < ks.len() implies self@.contains_key(
                        #[trigger] ks[m],
                    ) by {
                        if m < i {
                            assert(ks[m] == oks[m]);
                            assert(oks[i as int] == key@);
                            assert(ks[m] != key@) by {
                                if m != i {
                                }
                            }
                        } else {
                            assert(ks[m] == oks[m + 1]);
                            assert(oks[i as int] == key@);
                        }
                    }
                }
                return ;
            }
            i = i + 1;
        }
        proof {
            assert(!old(self)@.contains_key(key@)) by {
                if old(self)@.contains_key(key@) {
                    let m = choose|m: int|
                        0 <= m < old(self).key_seq().len() && old(self).key_seq()[m] == key@;
                }
            }
            assert(old(self)@.remove(key@) =~= old(self)@);
        }
    }
}

/// A data directory as plain values: the segments and the bytes of the
/// recovery metadata file, if it exists.  The unverified shell reads the
/// real files into this form and writes it back out.
pub struct DiskImage {
    /// All segment files, ordered by ascending identifier.
    pub segments: Vec<Segment>,
    /// The raw bytes of the recovery metadata file, when present.
    pub metadata: Option<Vec<u8>>,
}

/// A directory layout the engine accepts: at least one segment, strictly
/// ascending identifiers, all within the identifier space.
pub open spec fn image_layout_ok(segs: Seq<SegmentView>) -> bool {
    &&& segs.len() >= 1
    &&& forall|i: int, j: int| 0 <= i < j < segs.len() ==> segs[i].id < segs[j].id
    &&& forall|i: int| 0 <= i < segs.len() ==> 0 <= (#[trigger] segs[i].id) < MAX_FILE_ID
}

/// Ascending adjacent identifiers give ascending identifiers overall.
proof fn lemma_adjacent_ascending(segs: Seq<SegmentView>, i: int, j: int)
    requires
        forall|m: int| 0 <= m < segs.len() - 1 ==> (#[trigger] segs[m].id) < segs[m + 1].id,
        0 <= i < j < segs.len(),
    ensures
        segs[i].id < segs[j].id,
    decreases j - i,
{
    if i + 1 < j {
        lemma_adjacent_ascending(segs, i + 1, j);
    }
}

/// The storage engine proper: segments, index, counters.  All operations
/// keep [`KvStoreInner::wf`], under which the observable mapping is `self@`.
pub struct KvStoreInner {
    segments: Vec<Segment>,
    index: KeyIndex,
    next_id: usize,
    uncompacted: u64,
    compaction_threshold: u64,
    model: Ghost<Map<Seq<char>, Seq<char>>>,
}

impl View for KvStoreInner {
    type V = Map<Seq<char>, Seq<char>>;

    closed spec fn view(&self) -> Map<Seq<char>, Seq<char>> {
        self.model@
    }
}

impl KvStoreInner {
    /// The segments as they would be written to disk.
    pub closed spec fn disk_views(&self) -> Seq<SegmentView> {
        seg_views(self.segments@)
    }

    /// The current dead-record count.
    pub closed spec fn uncompacted_of(&self) -> u64 {
        self.uncompacted
    }

    /// The current compaction threshold.
    pub closed spec fn threshold_of(&self) -> u64 {
        self.compaction_threshold
    }

    /// The next segment identifier that would be allocated.
    pub closed spec fn next_id_of(&self) -> int {
        self.next_id as int
    }

    /// How many bytes the active segment holds.
    pub closed spec fn active_len(&self) -> int {
        self.segments@.last().data@.len() as int
    }

    /// The engine's invariant: segments are well-numbered, and index,
    /// counters and observable mapping are exactly what replaying the
    /// segments yields.
    pub closed spec fn wf(&self) -> bool {
        &&& 1 <= self.segments@.len()
        &&& self.next_id <= MAX_FILE_ID
        &&& forall|i: int, j: int|
            0 <= i < j < self.segments@.len() ==> self.segments@[i].id < self.segments@[j].id
        &&& forall|i: int|
            0 <= i < self.segments@.len() ==> (#[trigger] self.segments@[i].id) < self.next_id
        &&& self.index.inv()
        &&& replay(self.disk_views()) is Some
        &&& {
            let st = replay(self.disk_views())->Some_0;
            &&& st.model == self.model@
            &&& st.uncompacted == self.uncompacted as int
            &&& forall|k: Seq<char>|
                #[trigger] st.table.contains_key(k) <==> self.index@.contains_key(k)
            &&& forall|k: Seq<char>|
                #[trigger] st.table.contains_key(k) ==> self.index@[k].file_id as int
                    == st.table[k].file_id && self.index@[k].pos as int == st.table[k].off
        }
    }

    /// The number of dead records currently on disk.
    pub fn uncompacted_record_num(&self) -> (n: u64)
        ensures
            n == self.uncompacted_of(),
    {
        self.uncompacted
    }

    /// Whether the dead-record count has passed the threshold.
    fn need_compaction(&self) -> (r: bool)
        ensures
            r == (self.uncompacted_of() > self.threshold_of()),
    {
        self.uncompacted > self.compaction_threshold
    }

    /// Opens a store from a directory image.
    ///
    /// Without metadata the directory counts as fresh: a new empty segment
    /// `0` is started.  With metadata, the metadata must parse, the
    /// segments must be well-numbered, and every record line must replay;
    /// each failure is its own error.
    #[verifier::rlimit(60)]
    pub fn open(image: DiskImage) -> (r: Result<KvStoreInner, KvError>)
        ensures
            match image.metadata {
                None => {
                    &&& r is Ok
                    &&& r->Ok_0.wf()
                    &&& r->Ok_0@ == Map::<Seq<char>, Seq<char>>::empty()
                    &&& r->Ok_0.uncompacted_of() == 0
                    &&& r->Ok_0.threshold_of() == 64
                    &&& r->Ok_0.disk_views() == seq![
                        SegmentView { id: 0, data: Seq::<u8>::empty() },
                    ]
                    &&& r->Ok_0.next_id_of() == 1
                },
                Some(bytes) => {
                    if crate::persist::parse_metadata(bytes@) is None {
                        r matches Err(KvError::BadMetadata)
                    } else if !image_layout_ok(seg_views(image.segments@)) {
                        r matches Err(KvError::BadLayout)
                    } else if replay(seg_views(image.segments@)) is None {
                        r matches Err(KvError::BadRecord)
                    } else {
                        &&& r is Ok
                        &&& r->Ok_0.wf()
                        &&& r->Ok_0.disk_views() == seg_views(image.segments@)
                        &&& r->Ok_0@ == replay(seg_views(image.segments@))->Some_0.model
                        &&& r->Ok_0.uncompacted_of() as int == replay(
                            seg_views(image.segments@),
                        )->Some_0.uncompacted
                        &&& r->Ok_0.threshold_of() as int == crate::persist::parse_metadata(
                            bytes@,
                        )->Some_0.0
                    }
                },
            },
    {
        let DiskImage { segments, metadata } = image;
        let meta_bytes = match metadata {
            None => {
                return Ok(Self::fresh_store());
            },
            Some(b) => b,
        };
        let meta = match crate::persist::PersistentStruct::decode(&meta_bytes) {
            None => {
                return Err(KvError::BadMetadata);
            },
            Some(m) => m,
        };
        if !Self::check_layout(&segments) {
            return Err(KvError::BadLayout);
        }
        let (index, unc, st) = match Self::replay_all(&segments) {
            None => {
                return Err(KvError::BadRecord);
            },
            Some(t) => t,
        };
        let n_segs = segments.len();
        let last_id = segments[n_segs - 1].id;
        proof {
            assert(seg_views(segments@)[n_segs - 1].id == last_id as int);
            assert(seg_views(segments@)[n_segs - 1].id < MAX_FILE_ID);
        }
        let store = KvStoreInner {
            segments,
            index,
            next_id: last_id + 1,
            uncompacted: unc,
            compaction_threshold: meta.compaction_threshold,
            model: Ghost(st@.model),
        };
        proof {
            assert(replay(store.disk_views()) == Some(st@));
            assert(store.disk_views() == seg_views(segments@));
            assert forall|i: int, j: int|
                0 <= i < j < store.segments@.len() implies store.segments@[i].id
                < store.segments@[j].id by {
                assert(seg_views(segments@)[i].id == store.segments@[i].id as int);
                assert(seg_views(segments@)[j].id == store.segments@[j].id as int);
                assert(seg_views(segments@)[i].id < seg_views(segments@)[j].id);
            }
            assert forall|i: int|
                0 <= i < store.segments@.len() implies (#[trigger] store.segments@[i].id)
                < store.next_id by {
                assert(seg_views(segments@)[i].id == store.segments@[i].id as int);
                if i < store.segments@.len() - 1 {
                    assert(seg_views(segments@)[i].id < seg_views(segments@)[store.segments@.len()
                        - 1].id);
                }
            }
        }
        Ok(store)
    }

    /// A store over a fresh directory: exactly one empty segment,
    /// numbered `0`, with `1` the next identifier to allocate.
    fn fresh_store() -> (store: KvStoreInner)
        ensures
            store.wf(),
            store@ == Map::<Seq<char>, Seq<char>>::empty(),
            store.uncompacted_of() == 0,
            store.threshold_of() == 64,
            store.disk_views() == seq![SegmentView { id: 0, data: Seq::<u8>::empty() }],
            store.next_id_of() == 1,
    {
        let mut fresh: Vec<Segment> = Vec::new();
        fresh.push(Segment { id: 0, data: Vec::new() });
        let store = KvStoreInner {
            segments: fresh,
            index: KeyIndex::new(),
            next_id: 1,
            uncompacted: 0,
            compaction_threshold: 64,
            model: Ghost(Map::empty()),
        };
        proof {
            let sv = store.disk_views();
            assert(sv.len() == 1);
            assert(sv[0].data.len() == 0);
            assert(run_seg(init_replay(), sv[0].id, sv[0].data, 0) == Some(init_replay()));
            assert(run_segs(init_replay(), sv, 1) == Some(init_replay()));
            assert(replay(sv) == Some(init_replay()));
            assert(sv =~= seq![SegmentView { id: 0, data: Seq::<u8>::empty() }]);
        }
        store
    }

    /// Checks that the segments are non-empty, strictly ascending, and
    /// within the identifier space.
    fn check_layout(segments: &Vec<Segment>) -> (r: bool)
        ensures
            r == image_layout_ok(seg_views(segments@)),
    {
        let n_segs = segments.len();
        if n_segs == 0 {
            return false;
        }
        let mut ci: usize = 0;
        while ci < n_segs
            invariant
                n_segs == segments@.len(),
                0 <= ci <= n_segs,
                forall|m: int|
                    0 <= m < ci ==> (#[trigger] seg_views(segments@)[m].id) < MAX_FILE_ID,
                forall|m: int|
                    1 <= m < ci ==> seg_views(segments@)[m - 1].id < (#[trigger] seg_views(
                        segments@,
                    )[m].id),
            decreases n_segs - ci,
        {
            if segments[ci].id >= MAX_FILE_ID {
                assert(seg_views(segments@)[ci as int].id == segments@[ci as int].id as int);
                assert(!image_layout_ok(seg_views(segments@)));
                return false;
            }
            if ci > 0 && segments[ci - 1].id >= segments[ci].id {
                assert(seg_views(segments@)[ci - 1].id == segments@[ci - 1].id as int);
                assert(seg_views(segments@)[ci as int].id == segments@[ci as int].id as int);
                assert(!image_layout_ok(seg_views(segments@)));
                return false;
            }
            ci = ci + 1;
        }
        proof {
            assert forall|i: int, j: int|
                0 <= i < j < seg_views(segments@).len() implies seg_views(segments@)[i].id
                < seg_views(segments@)[j].id by {
                lemma_adjacent_ascending(seg_views(segments@), i, j);
            }
        }
        true
    }

    /// Replays every segment, oldest first, building the index and the
    /// dead-record count.  Fails when some line is not a well-formed
    /// record.
    fn replay_all(segments: &Vec<Segment>) -> (r: Option<(KeyIndex, u64, Ghost<ReplayState>)>)
        ensures
            match r {
                Some((index, unc, st)) => {
                    &&& replay(seg_views(segments@)) == Some(st@)
                    &&& index.inv()
                    &&& st@.uncompacted == unc as int
                    &&& forall|k: Seq<char>|
                        #[trigger] st@.table.contains_key(k) <==> index@.contains_key(k)
                    &&& forall|k: Seq<char>|
                        #[trigger] st@.table.contains_key(k) ==> index@[k].file_id as int
                            == st@.table[k].file_id && index@[k].pos as int == st@.table[k].off
                },
                None => replay(seg_views(segments@)) is None,
            },
    {
        let n_segs = segments.len();
        let mut index = KeyIndex::new();
        let mut unc: u64 = 0;
        let ghost mut st: ReplayState = init_replay();
        let ghost sv = seg_views(segments@);
        let mut si: usize = 0;
        while si < n_segs
            invariant
                n_segs == segments@.len(),
                sv == seg_views(segments@),
                0 <= si <= n_segs,
                index.inv(),
                run_segs(init_replay(), sv, 0) == run_segs(st, sv, si as int),
                st.uncompacted == unc as int,
                forall|k: Seq<char>| #[trigger] st.table.contains_key(k) <==> index@.contains_key(
                    k,
                ),
                forall|k: Seq<char>|
                    #[trigger] st.table.contains_key(k) ==> index@[k].file_id as int
                        == st.table[k].file_id && index@[k].pos as int == st.table[k].off,
            decreases n_segs - si,
        {
            let r = Self::replay_one(&segments[si], &mut index, &mut unc, Ghost(st));
            proof {
                assert(sv[si as int].id == segments@[si as int].id as int && sv[si as int].data
                    == segments@[si as int].data@);
            }
            match r {
                None => {
                    proof {
                        assert(run_segs(st, sv, si as int) is None);
                    }
                    return None;
                },
                Some(st2) => {
                    proof {
                        assert(run_segs(st, sv, si as int) == run_segs(st2@, sv, si + 1));
                        st = st2@;
                    }
                },
            }
            si = si + 1;
        }
        Some((index, unc, Ghost(st)))
    }

    /// Replays one segment into the index and counter.  On success returns
    /// the replay state after this segment.
    fn replay_one(
        seg: &Segment,
        index: &mut KeyIndex,
        unc: &mut u64,
        Ghost(st0): Ghost<ReplayState>,
    ) -> (r: Option<Ghost<ReplayState>>)
        requires
            old(index).inv(),
            st0.uncompacted == *old(unc) as int,
            forall|k: Seq<char>| #[trigger] st0.table.contains_key(k) <==> old(
                index,
            )@.contains_key(k),
            forall|k: Seq<char>|
                #[trigger] st0.table.contains_key(k) ==> old(index)@[k].file_id as int
                    == st0.table[k].file_id && old(index)@[k].pos as int == st0.table[k].off,
        ensures
            final(index).inv(),
            match r {
                Some(st) => {
                    &&& run_seg(st0, seg.id as int, seg.data@, 0) == Some(st@)
                    &&& st@.uncompacted == *final(unc) as int
                    &&& forall|k: Seq<char>|
                        #[trigger] st@.table.contains_key(k) <==> final(index)@.contains_key(k)
                    &&& forall|k: Seq<char>|
                        #[trigger] st@.table.contains_key(k) ==> final(index)@[k].file_id as int
                            == st@.table[k].file_id && final(index)@[k].pos as int
                            == st@.table[k].off
                },
                None => run_seg(st0, seg.id as int, seg.data@, 0) is None,
            },
    {
        let seg_id = seg.id;
        let data_len = seg.data.len();
        let ghost mut st: ReplayState = st0;
        let mut off: usize = 0;
        while off < data_len
            invariant
                seg_id == seg.id,
                data_len == seg.data@.len(),
                0 <= off <= data_len,
                index.inv(),
                run_seg(st0, seg_id as int, seg.data@, 0) == run_seg(
                    st,
                    seg_id as int,
                    seg.data@,
                    off as int,
                ),
                st.uncompacted == *unc as int,
                forall|k: Seq<char>| #[trigger] st.table.contains_key(k) <==> index@.contains_key(
                    k,
                ),
                forall|k: Seq<char>|
                    #[trigger] st.table.contains_key(k) ==> index@[k].file_id as int
                        == st.table[k].file_id && index@[k].pos as int == st.table[k].off,
            decreases data_len - off,
        {
            let line = match read_line_at(&seg.data, off) {
                None => {
                    return None;
                },
                Some(l) => l,
            };
            let cmd = match decode_command(&line) {
                None => {
                    proof {
                        let data = seg.data@;
                        assert(find_nl(data, off as int)->Some_0 + 1 == off + line@.len());
                        assert(data.subrange(off as int, off + line@.len()) == line@);
                    }
                    return None;
                },
                Some(c) => c,
            };
            let line_len = line.len();
            proof {
                let data = seg.data@;
                assert(data.subrange(off as int, off + line_len) == line@);
                lemma_parse_line_sound(line@);
                st = apply_record(st, cmd@, seg_id as int, off as int, line_len as int);
            }
            match cmd {
                Command::Insertion { key, value } => {
                    proof {
                        assert(vstd::utf8::is_ascii_chars(key@));
                    }
                    let had = index.insert(
                        key,
                        CommandPosition { file_id: seg_id, pos: off as u64 },
                    );
                    if had {
                        *unc = sat_add_u64(*unc, 1);
                    }
                },
                Command::Discard { key } => {
                    proof {
                        assert(vstd::utf8::is_ascii_chars(key@));
                    }
                    index.remove(key.as_str());
                    *unc = sat_add_u64(*unc, 2);
                },
            }
            off = off + line_len;
        }
        Some(Ghost(st))
    }

    /// The number of bytes across all segment files, capped at
    /// `u64::MAX`.
    pub fn total_disk_size(&self) -> (n: u64)
        ensures
            n as int == disk_size_of(self.disk_views()),
    {
        let mut n: u64 = 0;
        let count = self.segments.len();
        let mut i: usize = 0;
        proof {
            assert(self.disk_views().take(0) =~= Seq::<SegmentView>::empty());
        }
        while i < count
            invariant
                count == self.segments@.len(),
                0 <= i <= count,
                n as int == disk_size_of(self.disk_views().take(i as int)),
            decreases count - i,
        {
            let dlen = self.segments[i].data.len();
            proof {
                assert(self.disk_views().take(i + 1).drop_last() =~= self.disk_views().take(
                    i as int,
                ));
                assert(self.disk_views().take(i + 1).last() == self.disk_views()[i as int]);
                assert(self.disk_views()[i as int].data.len() == dlen);
            }
            n = sat_add_u64(n, dlen as u64);
            i = i + 1;
        }
        proof {
            assert(self.disk_views().take(count as int) =~= self.disk_views());
        }
        n
    }

    /// The position of the segment with identifier `fid`.
    fn find_segment(&self, fid: usize) -> (i: usize)
        requires
            self.wf(),
            exists|x: int|
                0 <= x < self.segments@.len() && (#[trigger] self.segments@[x].id) == fid,
        ensures
            i < self.segments@.len(),
            self.segments@[i as int].id == fid,
    {
        let n = self.segments.len();
        let mut i: usize = 0;
        while i < n
            invariant
                self.wf(),
                n == self.segments@.len(),
                0 <= i <= n,
                exists|x: int|
                    0 <= x < self.segments@.len() && (#[trigger] self.segments@[x].id) == fid,
                forall|m: int| 0 <= m < i ==> (#[trigger] self.segments@[m].id) != fid,
            decreases n - i,
        {
            if self.segments[i].id == fid {
                return i;
            }
            i = i + 1;
        }
        proof {
            let x = choose|x: int|
                0 <= x < self.segments@.len() && (#[trigger] self.segments@[x].id) == fid;
            assert(false);
        }
        0
    }

    /// Reads back the record line that the index holds for a live key.
    /// Under the invariant it is exactly the canonical insertion line for
    /// the key and its current value.
    fn read_record_line(&self, key: &str, cp: CommandPosition) -> (line: Vec<u8>)
        requires
            self.wf(),
            self.index@.contains_key(key@),
            cp == self.index@[key@],
        ensures
            self@.contains_key(key@),
            valid_command(CommandView::Insertion { key: key@, value: self@[key@] }),
            line@ == encoded_line(CommandView::Insertion { key: key@, value: self@[key@] }),
            replay(self.disk_views())->Some_0.table.contains_key(key@),
            line@.len() == replay(self.disk_views())->Some_0.table[key@].len,
    {
        proof {
            lemma_replay_table_ok(self.disk_views());
        }
        let ghost st = replay(self.disk_views())->Some_0;
        let ghost cmdv = CommandView::Insertion { key: key@, value: st.model[key@] };
        let ghost info = st.table[key@];
        proof {
            assert(st.table.contains_key(key@));
            assert(record_at(self.disk_views(), info, encoded_line(cmdv)));
        }
        let ghost x = choose|x: int|
            0 <= x < self.disk_views().len() && (#[trigger] self.disk_views()[x].id)
                == info.file_id && 0 <= info.off && info.off + info.len <= self.disk_views()[
                x
            ].data.len() && self.disk_views()[x].data.subrange(info.off, info.off + info.len)
                == encoded_line(cmdv) && find_nl(self.disk_views()[x].data, info.off) == Some(
                info.off + info.len - 1,
            );
        proof {
            assert(self.segments@[x].id as int == info.file_id);
            assert(info.file_id == cp.file_id as int);
            assert(self.segments@[x].id == cp.file_id);
        }
        let idx = self.find_segment(cp.file_id);
        proof {
            if idx as int != x {
                if (idx as int) < x {
                    assert(self.segments@[idx as int].id < self.segments@[x].id);
                } else {
                    assert(self.segments@[x].id < self.segments@[idx as int].id);
                }
            }
            assert(idx as int == x);
        }
        let dlen = self.segments[idx].data.len();
        proof {
            assert(self.disk_views()[x].data == self.segments@[x].data@);
            assert(self.segments@[idx as int].data@.len() == dlen);
            lemma_find_nl_sound(self.disk_views()[x].data, info.off);
            assert(0 <= info.off <= dlen);
            assert(cp.pos as int == info.off);
        }
        let off: usize = cp.pos as usize;
        proof {
            assert(off as int == info.off);
            assert(find_nl(self.segments@[idx as int].data@, off as int) == Some(
                info.off + info.len - 1,
            ));
        }
        let line = match read_line_at(&self.segments[idx].data, off) {
            None => {
                proof {
                    assert(false);
                }
                let empty: Vec<u8> = Vec::new();
                empty
            },
            Some(l) => l,
        };
        proof {
            assert(line@ == encoded_line(cmdv)) by {
                assert(off + line@.len() - 1 == info.off + info.len - 1);
                assert(line@ == self.disk_views()[x].data.subrange(info.off, info.off + info.len));
            }
        }
        line
    }

    /// Looks a key up.  Returns the stored value, or `None` when the key
    /// is not live.  Under the invariant the stored record always matches
    /// the index, so the corruption error is never taken.
    pub fn get(&self, key: &str) -> (r: Result<Option<String>, KvError>)
        requires
            self.wf(),
            valid_text(key@),
        ensures
            r is Ok,
            match r->Ok_0 {
                Some(v) => self@.contains_key(key@) && v@ == self@[key@],
                None => !self@.contains_key(key@),
            },
    {
        proof {
            lemma_replay_table_ok(self.disk_views());
        }
        let cp = match self.index.get(key) {
            None => {
                return Ok(None);
            },
            Some(cp) => cp,
        };
        let line = self.read_record_line(key, cp);
        let ghost cmdv = CommandView::Insertion { key: key@, value: self@[key@] };
        proof {
            lemma_parse_encoded_line(cmdv);
        }
        let cmd = match decode_command(&line) {
            None => {
                proof {
                    assert(false);
                }
                return Err(KvError::Corruption);
            },
            Some(c) => c,
        };
        match cmd {
            Command::Insertion { key: ikey, value } => {
                proof {
                    crate::codec::lemma_valid_field_ascii(key@);
                    crate::codec::lemma_valid_field_ascii(ikey@);
                }
                let ks = ikey.as_str();
                if str_eq_ascii(ks, key) {
                    Ok(Some(value))
                } else {
                    Err(KvError::Corruption)
                }
            },
            Command::Discard { key: _ } => Err(KvError::Corruption),
        }
    }

    /// Appends one canonical record line to the active segment and
    /// returns the record's position.
    fn append_line_record(
        segments: &mut Vec<Segment>,
        line: &Vec<u8>,
        Ghost(c): Ghost<CommandView>,
    ) -> (pos: CommandPosition)
        requires
            old(segments)@.len() >= 1,
            replay(seg_views(old(segments)@)) is Some,
            valid_command(c),
            line@ == encoded_line(c),
        ensures
            final(segments)@.len() == old(segments)@.len(),
            seg_views(final(segments)@) == seg_views(old(segments)@).update(
                old(segments)@.len() - 1,
                SegmentView {
                    id: old(segments)@.last().id as int,
                    data: old(segments)@.last().data@ + line@,
                },
            ),
            pos.file_id == old(segments)@.last().id,
            pos.pos as int == old(segments)@.last().data@.len(),
            replay(seg_views(final(segments)@)) == Some(
                apply_record(
                    replay(seg_views(old(segments)@))->Some_0,
                    c,
                    pos.file_id as int,
                    pos.pos as int,
                    line@.len() as int,
                ),
            ),
    {
        let n = segments.len();
        let mut seg = match segments.pop() {
            Some(s) => s,
            None => {
                proof {
                    assert(false);
                }
                Segment { id: 0, data: Vec::new() }
            },
        };
        let off = seg.data.len();
        append_bytes(&mut seg.data, line);
        let seg_id = seg.id;
        segments.push(seg);
        let pos = CommandPosition { file_id: seg_id, pos: off as u64 };
        proof {
            let sv0 = seg_views(old(segments)@);
            let sv1 = seg_views(segments@);
            assert(sv1 =~= sv0.update(
                sv0.len() - 1,
                SegmentView {
                    id: old(segments)@.last().id as int,
                    data: old(segments)@.last().data@ + line@,
                },
            ));
            let st0 = replay(sv0)->Some_0;
            lemma_run_segs_split_last(init_replay(), sv0);
            let st1 = run_segs(init_replay(), sv0.drop_last(), 0)->Some_0;
            assert(run_seg(st1, sv0.last().id, sv0.last().data, 0) == Some(st0));
            lemma_run_seg_append(st1, sv0.last().id, sv0.last().data, line@, c, 0);
            lemma_run_segs_split_last(init_replay(), sv1);
            assert(sv1.drop_last() =~= sv0.drop_last());
            assert(sv1.last().id == sv0.last().id);
            assert(sv1.last().data == sv0.last().data + line@);
            assert(replay(sv1) == Some(
                apply_record(
                    st0,
                    c,
                    sv0.last().id,
                    sv0.last().data.len() as int,
                    line@.len() as int,
                ),
            ));
        }
        pos
    }

    /// Starts a fresh empty segment with the given identifier.
    fn push_empty_segment(segments: &mut Vec<Segment>, id: usize)
        requires
            replay(seg_views(old(segments)@)) is Some,
        ensures
            final(segments)@.len() == old(segments)@.len() + 1,
            seg_views(final(segments)@) == seg_views(old(segments)@).push(
                SegmentView { id: id as int, data: Seq::empty() },
            ),
            replay(seg_views(final(segments)@)) == replay(seg_views(old(segments)@)),
    {
        segments.push(Segment { id, data: Vec::new() });
        proof {
            let sv0 = seg_views(old(segments)@);
            let sv1 = seg_views(segments@);
            assert(sv1 =~= sv0.push(SegmentView { id: id as int, data: Seq::empty() }));
            lemma_run_segs_split_last(init_replay(), sv1);
            assert(sv1.drop_last() =~= sv0);
            let st0 = replay(sv0)->Some_0;
            assert(run_seg(st0, sv1.last().id, sv1.last().data, 0) == Some(st0));
        }
    }

    /// Removes a live key by appending a tombstone, then dropping the
    /// index entry.  A tombstone and the record it kills are both dead,
    /// so the dead-record count grows by two.
    pub fn remove(&mut self, key: &str) -> (r: Result<(), KvError>)
        requires
            old(self).wf(),
            valid_text(key@),
        ensures
            final(self).wf(),
            if old(self)@.contains_key(key@) {
                &&& r is Ok
                &&& final(self)@ == old(self)@.remove(key@)
                &&& final(self).disk_views() == old(self).appended_layout(
                    CommandView::Discard { key: key@ },
                )
                &&& final(self).uncompacted_of() as int == sat_add64(
                    old(self).uncompacted_of() as int,
                    2,
                )
                &&& final(self).threshold_of() == old(self).threshold_of()
            } else {
                &&& r matches Err(KvError::KeyNotFound { key: k }) && k@ == key@
                &&& *final(self) == *old(self)
            },
    {
        proof {
            lemma_replay_table_ok(old(self).disk_views());
        }
        let missing = match self.index.get(key) {
            Some(_) => false,
            None => true,
        };
        if missing {
            return Err(KvError::KeyNotFound { key: String::from_str(key) });
        }
        let cmd = Command::Discard { key: String::from_str(key) };
        let line = encode_command(&cmd);
        let _pos = Self::append_line_record(&mut self.segments, &line, Ghost(cmd@));
        proof {
            crate::codec::lemma_valid_field_ascii(key@);
        }
        self.index.remove(key);
        self.uncompacted = sat_add_u64(self.uncompacted, 2);
        proof {
            self.model@ = self.model@.remove(key@);
        }
        proof {
            assert(self.segments@.len() == old(self).segments@.len());
            assert forall|i: int|
                0 <= i < self.segments@.len() implies self.segments@[i].id == old(
                self,
            ).segments@[i].id by {
                assert(seg_views(self.segments@)[i].id == seg_views(old(self).segments@)[i].id);
                assert(seg_views(self.segments@)[i].id == self.segments@[i].id as int);
                assert(seg_views(old(self).segments@)[i].id == old(self).segments@[i].id as int);
            }
            assert(self.disk_views() =~= old(self).appended_layout(
                CommandView::Discard { key: key@ },
            ));
        }
        Ok(())
    }

    /// Rewrites every live record into fresh segments numbered from zero,
    /// drops the old segments, resets the dead-record count and doubles
    /// the threshold.  The observable mapping is unchanged, the new
    /// directory is exactly as large as the live records, and the
    /// renumbering recovers the segment-identifier space, so compaction
    /// is possible in every state.
    pub fn compaction(&mut self) -> (r: Result<(), KvError>)
        requires
            old(self).wf(),
        ensures
            r is Ok,
            final(self).wf(),
            final(self)@ == old(self)@,
            final(self).uncompacted_of() == 0,
            final(self).threshold_of() as int == dbl_threshold(old(self).threshold_of() as int),
            seg_total(final(self).disk_views()) <= seg_total(old(self).disk_views()),
            seg_total(final(self).disk_views()) == sum_lens(
                old(self).live_keys(),
                replay(old(self).disk_views())->Some_0.table,
            ),
            forall|i: int|
                0 <= i < final(self).disk_views().len()
                    ==> (#[trigger] final(self).disk_views()[i].id) == i,
            final(self).next_id_of() == final(self).disk_views().len(),
    {
        proof {
            lemma_replay_table_ok(old(self).disk_views());
        }
        let ghost st_old = replay(old(self).disk_views())->Some_0;
        let mut new_segs: Vec<Segment> = Vec::new();
        let mut nid: usize = 0;
        proof {
            assert(seg_views(new_segs@) =~= Seq::<SegmentView>::empty());
            assert(replay(seg_views(new_segs@)) == Some(init_replay()));
        }
        Self::push_empty_segment(&mut new_segs, nid);
        nid = nid + 1;
        proof {
            assert(seg_views(new_segs@).drop_last() =~= Seq::<SegmentView>::empty());
            assert(seg_total(Seq::<SegmentView>::empty()) == 0);
            assert(seg_views(new_segs@).last().data.len() == 0);
            assert(seg_total(seg_views(new_segs@)) == 0);
            assert(sum_lens(self.index.key_seq().take(0), st_old.table) == 0);
        }
        let mut new_index = KeyIndex::new();
        let nkeys = self.index.keys_len();
        let mut ki: usize = 0;
        while ki < nkeys
            invariant
                *self == *old(self),
                self.wf(),
                st_old == replay(self.disk_views())->Some_0,
                table_ok(self.disk_views(), st_old),
                nkeys == self.index.key_seq().len(),
                0 <= ki <= nkeys,
                new_index.inv(),
                new_segs@.len() >= 1,
                nid <= MAX_FILE_ID,
                nid as int == seg_views(new_segs@).len(),
                forall|i: int|
                    0 <= i < seg_views(new_segs@).len() ==> (#[trigger] seg_views(
                        new_segs@,
                    )[i].id) == i,
                replay(seg_views(new_segs@)) is Some,
                seg_total(seg_views(new_segs@)) == sum_lens(
                    self.index.key_seq().take(ki as int),
                    st_old.table,
                ),
                ({
                    let stn = replay(seg_views(new_segs@))->Some_0;
                    &&& stn.uncompacted == 0
                    &&& forall|k: Seq<char>|
                        #[trigger] stn.table.contains_key(k) <==> new_index@.contains_key(k)
                    &&& forall|k: Seq<char>|
                        #[trigger] stn.table.contains_key(k) <==> stn.model.contains_key(k)
                    &&& forall|k: Seq<char>|
                        #[trigger] stn.table.contains_key(k) ==> new_index@[k].file_id as int
                            == stn.table[k].file_id && new_index@[k].pos as int == stn.table[k].off
                    &&& forall|k: Seq<char>|
                        #[trigger] stn.model.contains_key(k) ==> st_old.model.contains_key(k)
                            && stn.model[k] == st_old.model[k]
                    &&& forall|m: int|
                        0 <= m < ki ==> stn.model.contains_key(
                            #[trigger] self.index.key_seq()[m],
                        )
                    &&& forall|k: Seq<char>|
                        #[trigger] stn.model.contains_key(k) ==> exists|m: int|
                            0 <= m < ki && self.index.key_seq()[m] == k
                }),
            decreases nkeys - ki,
        {
            let key_ref = self.index.key_at(ki);
            let key_owned = key_ref.clone();
            let cp = match self.index.get(key_owned.as_str()) {
                Some(cp) => cp,
                None => {
                    proof {
                        assert(false);
                    }
                    CommandPosition { file_id: 0, pos: 0 }
                },
            };
            let line = self.read_record_line(key_owned.as_str(), cp);
            let ghost cmdv = CommandView::Insertion { key: key_owned@, value: self@[key_owned@] };
            let ghost stn_pre = replay(seg_views(new_segs@))->Some_0;
            let ghost pre_views = seg_views(new_segs@);
            proof {
                assert(st_old.table.contains_key(self.index.key_seq()[ki as int]));
                assert(line@.len() == st_old.table[self.index.key_seq()[ki as int]].len);
            }
            let newpos = Self::append_line_record(&mut new_segs, &line, Ghost(cmdv));
            proof {
                crate::codec::lemma_valid_field_ascii(key_owned@);
                assert(seg_total(seg_views(new_segs@)) == seg_total(pre_views) + line@.len()) by {
                    assert(seg_views(new_segs@).drop_last() =~= pre_views.drop_last());
                    assert(seg_views(new_segs@).last().data == pre_views.last().data + line@);
                }
                assert(seg_total(seg_views(new_segs@)) == sum_lens(
                    self.index.key_seq().take(ki + 1),
                    st_old.table,
                )) by {
                    let kseq = self.index.key_seq();
                    assert(kseq.take(ki + 1).drop_last() =~= kseq.take(ki as int));
                    assert(kseq.take(ki + 1).last() == kseq[ki as int]);
                    assert(st_old.table.contains_key(kseq[ki as int]));
                }
                assert(seg_views(new_segs@).len() == pre_views.len());
                assert forall|i: int|
                    0 <= i < seg_views(new_segs@).len() implies (#[trigger] seg_views(
                    new_segs@,
                )[i].id) == pre_views[i].id by {
                    if i < pre_views.len() - 1 {
                        assert(seg_views(new_segs@)[i] == pre_views[i]);
                    }
                }
            }
            let had = new_index.insert(key_owned, newpos);
            proof {
                if had {
                    assert(stn_pre.table.contains_key(self.index.key_seq()[ki as int]));
                    assert(stn_pre.model.contains_key(self.index.key_seq()[ki as int]));
                    let m = choose|m: int|
                        0 <= m < ki && self.index.key_seq()[m] == self.index.key_seq()[ki as int];
                    assert(self.index.key_seq()[m] != self.index.key_seq()[ki as int]);
                    assert(false);
                }
            }
            let last_idx = new_segs.len() - 1;
            let last_len = new_segs[last_idx].data.len();
            if last_len > MAX_FILE_SIZE && nid < MAX_FILE_ID {
                let ghost rot_views = seg_views(new_segs@);
                Self::push_empty_segment(&mut new_segs, nid);
                proof {
                    assert(seg_total(seg_views(new_segs@)) == seg_total(rot_views)) by {
                        assert(seg_views(new_segs@).drop_last() =~= rot_views);
                        assert(seg_views(new_segs@).last().data.len() == 0);
                    }
                    assert forall|i: int|
                        0 <= i < seg_views(new_segs@).len() implies (#[trigger] seg_views(
                            new_segs@,
                        )[i].id) == i by {
                        if i < rot_views.len() {
                            assert(seg_views(new_segs@)[i] == rot_views[i]);
                        } else {
                            assert(seg_views(new_segs@)[i].id == nid as int);
                        }
                    }
                }
                nid = nid + 1;
            }
            ki = ki + 1;
        }
        proof {
            let stn = replay(seg_views(new_segs@))->Some_0;
            assert forall|k: Seq<char>| #[trigger] st_old.model.contains_key(
                k,
            ) implies stn.model.contains_key(k) by {
                assert(st_old.table.contains_key(k));
                assert(self.index@.contains_key(k));
                let m = choose|m: int|
                    0 <= m < self.index.key_seq().len() && self.index.key_seq()[m] == k;
                assert(stn.model.contains_key(self.index.key_seq()[m]));
            }
            assert(stn.model =~= st_old.model);
            assert(self.index.key_seq().take(nkeys as int) =~= self.index.key_seq());
            lemma_live_within_total(self.index.key_seq(), self.disk_views());
            assert(seg_total(seg_views(new_segs@)) <= seg_total(self.disk_views()));
        }
        self.segments = new_segs;
        self.index = new_index;
        self.uncompacted = 0;
        let t = self.compaction_threshold;
        self.compaction_threshold = if t > u64::MAX / 2 {
            u64::MAX
        } else {
            2 * t
        };
        self.next_id = nid;
        proof {
            assert forall|i: int, j: int|
                0 <= i < j < self.segments@.len() implies self.segments@[i].id
                < self.segments@[j].id by {
                assert(seg_views(self.segments@)[i].id == i);
                assert(seg_views(self.segments@)[j].id == j);
                assert(seg_views(self.segments@)[i].id == self.segments@[i].id as int);
                assert(seg_views(self.segments@)[j].id == self.segments@[j].id as int);
            }
            assert forall|i: int|
                0 <= i < self.segments@.len() implies (#[trigger] self.segments@[i].id)
                < self.next_id by {
                assert(seg_views(self.segments@)[i].id == self.segments@[i].id as int);
                assert(seg_views(self.segments@)[i].id == i);
            }
        }
        Ok(())
    }

    /// The dead-record count right after an insertion of `k`, before any
    /// compaction: one more dead record when `k` was overwritten.
    pub open spec fn unc_after_insert(self, k: Seq<char>) -> int {
        if self@.contains_key(k) {
            sat_add64(self.uncompacted_of() as int, 1)
        } else {
            self.uncompacted_of() as int
        }
    }

    /// Whether writing this pair pushes the active segment past the size
    /// limit, so that a fresh segment is started.
    pub open spec fn rotates_on_set(self, k: Seq<char>, v: Seq<char>) -> bool {
        self.active_len() + encoded_line(CommandView::Insertion { key: k, value: v }).len()
            > MAX_FILE_SIZE && self.next_id_of() < MAX_FILE_ID
    }

    /// Whether writing this pair makes compaction run: the dead-record
    /// count passes the threshold, or the active segment outgrew the
    /// limit with no identifier left to rotate to, so compaction runs to
    /// renumber and recover the identifier space.
    pub open spec fn compacts_on_set(self, k: Seq<char>, v: Seq<char>) -> bool {
        self.unc_after_insert(k) > self.threshold_of() || (self.active_len() + encoded_line(
            CommandView::Insertion { key: k, value: v },
        ).len() > MAX_FILE_SIZE && self.next_id_of() >= MAX_FILE_ID)
    }

    /// The live keys, each exactly once, in index order.
    pub closed spec fn live_keys(&self) -> Seq<Seq<char>> {
        self.index.key_seq()
    }

    /// The segments after one record line lands at the end of the active
    /// segment.
    pub open spec fn appended_layout(self, c: CommandView) -> Seq<SegmentView> {
        self.disk_views().update(
            self.disk_views().len() - 1,
            SegmentView {
                id: self.disk_views().last().id,
                data: self.disk_views().last().data + encoded_line(c),
            },
        )
    }

    /// The segments after a `set` that does not compact: the insertion
    /// line at the old active end, then a fresh empty segment if the
    /// grown one passed the size limit.
    pub open spec fn set_layout(self, k: Seq<char>, v: Seq<char>) -> Seq<SegmentView> {
        let base = self.appended_layout(CommandView::Insertion { key: k, value: v });
        if self.rotates_on_set(k, v) {
            base.push(SegmentView { id: self.next_id_of(), data: Seq::empty() })
        } else {
            base
        }
    }

    /// Inserts or overwrites a key by appending an insertion record and
    /// pointing the index at it, then rotates the active segment and
    /// compacts as the size and dead-record policies demand.
    pub fn set(&mut self, key: &str, value: &str) -> (r: Result<(), KvError>)
        requires
            old(self).wf(),
            valid_text(key@),
            valid_text(value@),
        ensures
            r is Ok,
            final(self).wf(),
            final(self)@ == old(self)@.insert(key@, value@),
            final(self).uncompacted_of() as int == if old(self).compacts_on_set(key@, value@) {
                0int
            } else {
                old(self).unc_after_insert(key@)
            },
            final(self).threshold_of() as int == if old(self).compacts_on_set(key@, value@) {
                dbl_threshold(old(self).threshold_of() as int)
            } else {
                old(self).threshold_of() as int
            },
            !old(self).compacts_on_set(key@, value@) ==> final(self).disk_views() == old(
                self,
            ).set_layout(key@, value@),
            !old(self).compacts_on_set(key@, value@) ==> replay(
                final(self).disk_views(),
            )->Some_0.table[key@] == (RecordInfo {
                file_id: old(self).disk_views().last().id,
                off: old(self).active_len(),
                len: encoded_line(
                    CommandView::Insertion { key: key@, value: value@ },
                ).len() as int,
            }),
            old(self).compacts_on_set(key@, value@) ==> (forall|i: int|
                0 <= i < final(self).disk_views().len()
                    ==> (#[trigger] final(self).disk_views()[i].id) == i),
    {
        proof {
            lemma_replay_table_ok(old(self).disk_views());
        }
        let cmd = Command::Insertion {
            key: String::from_str(key),
            value: String::from_str(value),
        };
        let line = encode_command(&cmd);
        let pos = Self::append_line_record(&mut self.segments, &line, Ghost(cmd@));
        proof {
            crate::codec::lemma_valid_field_ascii(key@);
        }
        let had = self.index.insert(String::from_str(key), pos);
        if had {
            self.uncompacted = sat_add_u64(self.uncompacted, 1);
        }
        proof {
            self.model@ = self.model@.insert(key@, value@);
        }
        proof {
            assert(self.segments@.len() == old(self).segments@.len());
            assert forall|i: int|
                0 <= i < self.segments@.len() implies self.segments@[i].id == old(
                self,
            ).segments@[i].id by {
                assert(seg_views(self.segments@)[i].id == seg_views(old(self).segments@)[i].id);
                assert(seg_views(self.segments@)[i].id == self.segments@[i].id as int);
                assert(seg_views(old(self).segments@)[i].id == old(self).segments@[i].id as int);
            }
            assert(self.wf());
            let n0 = self.segments@.len() as int;
            assert(seg_views(self.segments@)[n0 - 1].data == old(self).segments@.last().data@
                + line@);
            assert(seg_views(self.segments@)[n0 - 1].data == self.segments@.last().data@);
            assert(self.segments@.last().data@.len() == old(self).active_len() + line@.len());
            assert(self.disk_views() =~= old(self).appended_layout(cmd@));
            assert(replay(self.disk_views())->Some_0.table[key@] == (RecordInfo {
                file_id: old(self).disk_views().last().id,
                off: old(self).active_len(),
                len: line@.len() as int,
            }));
        }
        let n = self.segments.len();
        let alen = self.segments[n - 1].data.len();
        proof {
            assert(alen as int == old(self).active_len() + line@.len());
        }
        let forced = alen > MAX_FILE_SIZE && self.next_id >= MAX_FILE_ID;
        if alen > MAX_FILE_SIZE && self.next_id < MAX_FILE_ID {
            let ghost pre_views = seg_views(self.segments@);
            Self::push_empty_segment(&mut self.segments, self.next_id);
            proof {
                assert forall|i: int, j: int|
                    0 <= i < j < seg_views(self.segments@).len() implies seg_views(
                    self.segments@,
                )[i].id < seg_views(self.segments@)[j].id by {
                    if j < pre_views.len() {
                        assert(seg_views(self.segments@)[i] == pre_views[i]);
                        assert(seg_views(self.segments@)[j] == pre_views[j]);
                        assert(self.segments@[i].id == old(self).segments@[i].id);
                        assert(self.segments@[j].id == old(self).segments@[j].id);
                    } else {
                        assert(seg_views(self.segments@)[i] == pre_views[i]);
                        assert(seg_views(self.segments@)[j].id == self.next_id as int);
                        assert(pre_views[i].id == self.segments@[i].id as int);
                    }
                }
            }
            self.next_id = self.next_id + 1;
            proof {
                assert forall|i: int, j: int|
                    0 <= i < j < self.segments@.len() implies self.segments@[i].id
                    < self.segments@[j].id by {
                    assert(seg_views(self.segments@)[i].id < seg_views(self.segments@)[j].id);
                    assert(seg_views(self.segments@)[i].id == self.segments@[i].id as int);
                    assert(seg_views(self.segments@)[j].id == self.segments@[j].id as int);
                }
                assert forall|i: int|
                    0 <= i < self.segments@.len() implies (#[trigger] self.segments@[i].id)
                    < self.next_id by {
                    assert(seg_views(self.segments@)[i].id == self.segments@[i].id as int);
                }
                assert(self.wf());
                assert(old(self).rotates_on_set(key@, value@));
                assert(self.disk_views() =~= old(self).set_layout(key@, value@));
                assert(self.next_id_of() == old(self).next_id_of() + 1);
            }
        } else {
            proof {
                assert(!old(self).rotates_on_set(key@, value@));
                assert(self.disk_views() == old(self).set_layout(key@, value@));
                assert(self.next_id_of() == old(self).next_id_of());
            }
        }
        let ghost mid: KvStoreInner = *self;
        proof {
            assert(mid.disk_views() == old(self).set_layout(key@, value@));
            assert(replay(mid.disk_views())->Some_0.table[key@] == (RecordInfo {
                file_id: old(self).disk_views().last().id,
                off: old(self).active_len(),
                len: line@.len() as int,
            }));
            assert(mid.next_id_of() == old(self).next_id_of() + (
            if old(self).rotates_on_set(key@, value@) {
                1int
            } else {
                0int
            }));
        }
        if forced || self.need_compaction() {
            proof {
                assert(old(self).compacts_on_set(key@, value@));
            }
            match self.compaction() {
                Ok(()) => {},
                Err(_) => {
                    proof {
                        assert(false);
                    }
                },
            }
        } else {
            proof {
                assert(!old(self).compacts_on_set(key@, value@));
                assert(*self == mid);
            }
        }
        Ok(())
    }

    /// Flushes buffered state.  The in-memory engine has nothing buffered;
    /// the shell around the crate syncs the real files.
    pub fn flush(&self) -> (r: Result<(), KvError>)
        ensures
            r is Ok,
    {
        Ok(())
    }

    /// The directory image that an orderly close would leave on disk.
    pub fn snapshot(&self) -> (img: DiskImage)
        requires
            self.wf(),
        ensures
            seg_views(img.segments@) == self.disk_views(),
            img.metadata matches Some(m) && crate::persist::parse_metadata(m@) == Some(
                (self.threshold_of() as int, self.uncompacted_of() as int),
            ),
    {
        let mut segs: Vec<Segment> = Vec::new();
        let n = self.segments.len();
        let mut i: usize = 0;
        while i < n
            invariant
                self.wf(),
                n == self.segments@.len(),
                0 <= i <= n,
                seg_views(segs@) == self.disk_views().take(i as int),
            decreases n - i,
        {
            let mut data: Vec<u8> = Vec::new();
            append_bytes(&mut data, &self.segments[i].data);
            proof {
                assert(data@ =~= self.segments@[i as int].data@);
            }
            let ghost prev_views = seg_views(segs@);
            proof {
                assert(prev_views.len() == i as int);
            }
            segs.push(Segment { id: self.segments[i].id, data });
            proof {
                let dv = self.disk_views();
                assert(segs@.len() == prev_views.len() + 1);
                assert(segs@.len() == i + 1);
                assert forall|m: int| 0 <= m < i + 1 implies seg_views(segs@)[m] == dv.take(
                    i + 1,
                )[m] by {
                    if m < i {
                        assert(seg_views(segs@)[m] == prev_views[m]);
                        assert(prev_views[m] == dv.take(i as int)[m]);
                    } else {
                        assert(seg_views(segs@)[m].id == dv[m].id);
                        assert(seg_views(segs@)[m].data == dv[m].data);
                    }
                }
                assert(seg_views(segs@) =~= dv.take(i + 1));
            }
            i = i + 1;
        }
        proof {
            assert(self.disk_views().take(n as int) =~= self.disk_views());
        }
        let meta = crate::persist::PersistentStruct {
            compaction_threshold: self.compaction_threshold,
            uncompacted_size: self.uncompacted,
        }.encode();
        proof {
            crate::persist::lemma_parse_encoded_metadata(
                self.compaction_threshold as int,
                self.uncompacted as int,
            );
        }
        DiskImage { segments: segs, metadata: Some(meta) }
    }
}

/// Durability of an orderly close: the segments of a well-formed store
/// form an acceptable directory whose replay reproduces the store's
/// observable mapping and dead-record count.  Together with the contract
/// of [`KvStoreInner::open`], reopening a snapshot yields a store with the
/// same observable mapping.
pub proof fn lemma_snapshot_recovers(s: KvStoreInner)
    requires
        s.wf(),
    ensures
        image_layout_ok(s.disk_views()),
        replay(s.disk_views()) is Some,
        replay(s.disk_views())->Some_0.model == s@,
        replay(s.disk_views())->Some_0.uncompacted == s.uncompacted_of() as int,
{
    assert(image_layout_ok(s.disk_views())) by {
        assert(s.disk_views().len() >= 1);
        assert forall|i: int, j: int|
            0 <= i < j < s.disk_views().len() implies s.disk_views()[i].id
            < s.disk_views()[j].id by {
            assert(s.disk_views()[i].id == s.segments@[i].id as int);
            assert(s.disk_views()[j].id == s.segments@[j].id as int);
            assert(s.segments@[i].id < s.segments@[j].id);
        }
        assert forall|i: int| 0 <= i < s.disk_views().len() implies 0 <= (
        #[trigger] s.disk_views()[i].id) < MAX_FILE_ID by {
            assert(s.disk_views()[i].id == s.segments@[i].id as int);
            assert(s.segments@[i].id < s.next_id);
        }
    }
}


/// What the live-key list of a well-formed store is: every listed key is
/// live, every live key is listed, and no key is listed twice.  Together
/// with the exact-size clause of compaction this pins the compacted
/// directory's size to the footprint of the live records.
pub proof fn lemma_live_keys(s: KvStoreInner)
    requires
        s.wf(),
    ensures
        distinct_keys(s.live_keys()),
        forall|i: int|
            0 <= i < s.live_keys().len() ==> s@.contains_key(#[trigger] s.live_keys()[i]),
        forall|k: Seq<char>|
            #[trigger] s@.contains_key(k) ==> exists|i: int|
                0 <= i < s.live_keys().len() && s.live_keys()[i] == k,
{
    lemma_replay_table_ok(s.disk_views());
    let st = replay(s.disk_views())->Some_0;
    assert forall|i: int| 0 <= i < s.live_keys().len() implies s@.contains_key(
        #[trigger] s.live_keys()[i],
    ) by {
        assert(s.index@.contains_key(s.live_keys()[i]));
        assert(st.table.contains_key(s.live_keys()[i]));
    }
    assert forall|k: Seq<char>| #[trigger] s@.contains_key(k) implies exists|i: int|
        0 <= i < s.live_keys().len() && s.live_keys()[i] == k by {
        assert(st.table.contains_key(k));
        assert(s.index@.contains_key(k));
    }
}

/// A counter that hands out successive numbers, wrapping at a fixed
/// maximum.
pub struct CycleCounter {
    count: usize,
    maximum: usize,
}

impl CycleCounter {
    /// The value the counter will hand out next.
    pub closed spec fn count_of(&self) -> int {
        self.count as int
    }

    /// The bound at which the counter wraps to zero.
    pub closed spec fn maximum_of(&self) -> int {
        self.maximum as int
    }

    /// Creates a counter that starts at `count` and wraps at `maximum`.
    pub fn new(count: usize, maximum: usize) -> (r: CycleCounter)
        ensures
            r.count_of() == count as int,
            r.maximum_of() == maximum as int,
    {
        CycleCounter { count, maximum }
    }

    /// Hands out the current value and advances, wrapping at the maximum.
    pub fn next(&mut self) -> (r: usize)
        requires
            old(self).maximum_of() >= 1,
            old(self).count_of() < usize::MAX,
        ensures
            r as int == old(self).count_of(),
            final(self).count_of() == (old(self).count_of() + 1) % old(self).maximum_of(),
            final(self).maximum_of() == old(self).maximum_of(),
    {
        let c = self.count;
        self.count = (self.count + 1) % self.maximum;
        c
    }
}

/// After a `set`, the dead-record count sits at or below the threshold:
/// either the write stayed within it, or compaction ran and reset it.
pub proof fn lemma_set_respects_threshold(
    pre: KvStoreInner,
    post: KvStoreInner,
    k: Seq<char>,
    v: Seq<char>,
)
    requires
        post.uncompacted_of() as int == (if pre.compacts_on_set(k, v) {
            0int
        } else {
            pre.unc_after_insert(k)
        }),
        post.threshold_of() as int == (if pre.compacts_on_set(k, v) {
            dbl_threshold(pre.threshold_of() as int)
        } else {
            pre.threshold_of() as int
        }),
    ensures
        post.uncompacted_of() <= post.threshold_of(),
{
}

/// A value just written is what a lookup finds: after `set(k, v)` the
/// observable mapping holds `v` at `k`.
pub proof fn lemma_set_then_get(pre: KvStoreInner, post: KvStoreInner, k: Seq<char>, v: Seq<char>)
    requires
        post@ == pre@.insert(k, v),
    ensures
        post@.contains_key(k),
        post@[k] == v,
{
}

/// Writing one key does not disturb another: after `set(k2, v2)` every
/// other key reads as before.
pub proof fn lemma_set_preserves_other_keys(
    pre: KvStoreInner,
    post: KvStoreInner,
    k: Seq<char>,
    k2: Seq<char>,
    v2: Seq<char>,
)
    requires
        post@ == pre@.insert(k2, v2),
        k2 != k,
    ensures
        post@.contains_key(k) == pre@.contains_key(k),
        pre@.contains_key(k) ==> post@[k] == pre@[k],
{
}

/// A removed key reads as absent: after `remove(k)` the observable
/// mapping no longer holds `k`.
pub proof fn lemma_remove_then_get(pre: KvStoreInner, post: KvStoreInner, k: Seq<char>)
    requires
        post@ == pre@.remove(k),
    ensures
        !post@.contains_key(k),
{
}

/// Removing one key does not disturb another.
pub proof fn lemma_remove_preserves_other_keys(
    pre: KvStoreInner,
    post: KvStoreInner,
    k: Seq<char>,
    k2: Seq<char>,
)
    requires
        post@ == pre@.remove(k2),
        k2 != k,
    ensures
        post@.contains_key(k) == pre@.contains_key(k),
        pre@.contains_key(k) ==> post@[k] == pre@[k],
{
}

/// A key never written reads as absent: a fresh store's mapping is empty.
pub proof fn lemma_fresh_store_empty(s: KvStoreInner, k: Seq<char>)
    requires
        s@ == Map::<Seq<char>, Seq<char>>::empty(),
    ensures
        !s@.contains_key(k),
{
}

/// An overwriting `set` strictly increases the dead-record count, as long
/// as the counter is not saturated.
pub proof fn lemma_overwrite_grows_uncompacted(pre: KvStoreInner, k: Seq<char>)
    requires
        pre@.contains_key(k),
        pre.uncompacted_of() < u64::MAX,
    ensures
        pre.unc_after_insert(k) > pre.uncompacted_of(),
{
}

/// A successful `remove` adds exactly two to the dead-record count, as
/// long as the counter does not saturate.
pub proof fn lemma_remove_adds_two(u: u64)
    requires
        u + 2 <= u64::MAX,
    ensures
        sat_add64(u as int, 2) == u + 2,
{
}


/// The lock predicate for a shared store: whatever sits in the lock is a
/// well-formed engine.
pub struct EngineLockPredicate;

impl vstd::rwlock::RwLockPredicate<KvStoreInner> for EngineLockPredicate {
    open spec fn inv(self, v: KvStoreInner) -> bool {
        v.wf()
    }
}

/// A shareable handle to the storage engine.  Readers share the engine
/// under a read lock; `set`, `remove` and compaction run under the write
/// lock, so all writes are totally ordered and readers see a prefix of
/// that order.
#[derive(Clone)]
pub struct KvStore {
    inner: std::sync::Arc<vstd::rwlock::RwLock<KvStoreInner, EngineLockPredicate>>,
}

impl KvStore {
    /// Opens a shared store from a directory image; the error cases are
    /// those of [`KvStoreInner::open`].
    pub fn open(image: DiskImage) -> (r: Result<KvStore, KvError>)
        ensures
            match image.metadata {
                None => r is Ok,
                Some(bytes) => {
                    if crate::persist::parse_metadata(bytes@) is None {
                        r matches Err(KvError::BadMetadata)
                    } else if !image_layout_ok(seg_views(image.segments@)) {
                        r matches Err(KvError::BadLayout)
                    } else if replay(seg_views(image.segments@)) is None {
                        r matches Err(KvError::BadRecord)
                    } else {
                        r is Ok
                    }
                },
            },
    {
        let inner = match KvStoreInner::open(image) {
            Ok(inner) => inner,
            Err(e) => {
                return Err(e);
            },
        };
        Ok(
            KvStore {
                inner: std::sync::Arc::new(
                    vstd::rwlock::RwLock::new(inner, Ghost(EngineLockPredicate)),
                ),
            },
        )
    }

    /// The number of bytes across all segment files, as of this moment.
    pub fn total_disk_size(&self) -> u64 {
        let handle = self.inner.acquire_read();
        let n = handle.borrow().total_disk_size();
        handle.release_read();
        n
    }

    /// The directory image an orderly close would leave, as of this
    /// moment.
    pub fn snapshot(&self) -> (img: DiskImage) {
        let handle = self.inner.acquire_read();
        let img = handle.borrow().snapshot();
        handle.release_read();
        img
    }
}

impl crate::engine::KvsEngine for KvStore {
    /// Get under the read lock.  What value comes back depends on the
    /// writes other handles have interleaved; the engine under the lock
    /// never fails a lookup.
    fn get(&self, key: &str) -> (r: Result<Option<String>, KvError>)
        ensures
            r is Ok,
    {
        let handle = self.inner.acquire_read();
        let r = handle.borrow().get(key);
        handle.release_read();
        r
    }

    /// Set under the write lock; always succeeds.
    fn set(&self, key: &str, value: &str) -> (r: Result<(), KvError>)
        ensures
            r is Ok,
    {
        let (mut inner, wh) = self.inner.acquire_write();
        let r = inner.set(key, value);
        wh.release_write(inner);
        r
    }

    /// Remove under the write lock; fails only when the key is not live
    /// at that moment.
    fn remove(&self, key: &str) -> (r: Result<(), KvError>)
        ensures
            r is Ok || r matches Err(KvError::KeyNotFound { key: _ }),
    {
        let (mut inner, wh) = self.inner.acquire_write();
        let r = inner.remove(key);
        wh.release_write(inner);
        r
    }
}


/// Whether a string is a key or value the store accepts: non-empty,
/// printable ASCII, and within the length bound.
pub fn check_valid_text(s: &str) -> (r: bool)
    ensures
        r == valid_text(s@),
{
    broadcast use vstd::slice::axiom_spec_len;

    if !s.is_ascii() {
        assert(!valid_text(s@)) by {
            if valid_text(s@) {
                crate::codec::lemma_valid_field_ascii(s@);
            }
        }
        return false;
    }
    let bs = s.as_bytes();
    let n = bs.len();
    proof {
        crate::codec::ascii_len_is_char_len(s);
        assert(bs@.len() == s@.len());
    }
    if n < 1 || n > MAX_TEXT {
        return false;
    }
    let mut i: usize = 0;
    while i < n
        invariant
            vstd::string::is_ascii(s),
            n == s@.len(),
            0 <= i <= n,
            forall|m: int| 0 <= m < i ==> crate::codec::printable_char(#[trigger] s@[m]),
        decreases n - i,
    {
        let b = s.get_ascii(i);
        if b < 32 || b > 126 {
            assert(!crate::codec::printable_char(s@[i as int]));
            return false;
        }
        assert(crate::codec::printable_char(s@[i as int]));
        i = i + 1;
    }
    true
}


/// The sum of the segments' sizes, capped at `u64::MAX`.
pub open spec fn disk_size_of(ss: Seq<SegmentView>) -> int
    decreases ss.len(),
{
    if ss.len() == 0 {
        0
    } else {
        sat_add64(disk_size_of(ss.drop_last()), ss.last().data.len() as int)
    }
}

/// The file name of a segment: the five-digit zero-padded identifier with
/// a `.log` suffix.
pub open spec fn file_name_view(id: int) -> Seq<char> {
    seq![
        ((48 + (id / 10000) % 10) as u8) as char,
        ((48 + (id / 1000) % 10) as u8) as char,
        ((48 + (id / 100) % 10) as u8) as char,
        ((48 + (id / 10) % 10) as u8) as char,
        ((48 + id % 10) as u8) as char,
    ] + ".log"@
}

/// Builds a segment's file name from its identifier.
pub fn file_name_from_id(file_id: usize) -> (s: String)
    requires
        file_id < 100000,
    ensures
        s@ == file_name_view(file_id as int),
{
    let mut b: Vec<u8> = Vec::new();
    b.push(48 + ((file_id / 10000) % 10) as u8);
    b.push(48 + ((file_id / 1000) % 10) as u8);
    b.push(48 + ((file_id / 100) % 10) as u8);
    b.push(48 + ((file_id / 10) % 10) as u8);
    b.push(48 + (file_id % 10) as u8);
    let mut s = crate::codec::ascii_string_from_bytes(b);
    s.append(".log");
    proof {
        assert(s@ =~= file_name_view(file_id as int));
    }
    s
}


/// The exact number of bytes across segments.
pub open spec fn seg_total(ss: Seq<SegmentView>) -> int
    decreases ss.len(),
{
    if ss.len() == 0 {
        0
    } else {
        seg_total(ss.drop_last()) + ss.last().data.len()
    }
}

/// The bytes taken by the records of the given keys, per the position
/// table.
pub open spec fn sum_lens(ks: Seq<Seq<char>>, t: Map<Seq<char>, RecordInfo>) -> int
    decreases ks.len(),
{
    if ks.len() == 0 {
        0
    } else {
        sum_lens(ks.drop_last(), t) + (if t.contains_key(ks.last()) {
            t[ks.last()].len
        } else {
            0
        })
    }
}

/// Every record length in the table is non-negative.
pub open spec fn lens_nonneg(t: Map<Seq<char>, RecordInfo>) -> bool {
    forall|k: Seq<char>| #[trigger] t.contains_key(k) ==> t[k].len >= 0
}

/// No key occurs twice.
pub open spec fn distinct_keys(ks: Seq<Seq<char>>) -> bool {
    forall|i: int, j: int| 0 <= i < j < ks.len() ==> ks[i] != ks[j]
}

/// Tables that agree on the listed keys sum alike.
proof fn lemma_sum_lens_agree(
    ks: Seq<Seq<char>>,
    t1: Map<Seq<char>, RecordInfo>,
    t2: Map<Seq<char>, RecordInfo>,
)
    requires
        forall|m: int|
            0 <= m < ks.len() ==> (t1.contains_key(#[trigger] ks[m]) == t2.contains_key(ks[m]) && (
            t1.contains_key(ks[m]) ==> t1[ks[m]] == t2[ks[m]])),
    ensures
        sum_lens(ks, t1) == sum_lens(ks, t2),
    decreases ks.len(),
{
    if ks.len() > 0 {
        assert(forall|m: int|
            0 <= m < ks.drop_last().len() ==> #[trigger] ks.drop_last()[m] == ks[m]);
        lemma_sum_lens_agree(ks.drop_last(), t1, t2);
        assert(ks.last() == ks[ks.len() - 1]);
    }
}

/// The sum over an empty table is zero.
proof fn lemma_sum_lens_empty(ks: Seq<Seq<char>>)
    ensures
        sum_lens(ks, Map::<Seq<char>, RecordInfo>::empty()) == 0,
    decreases ks.len(),
{
    if ks.len() > 0 {
        lemma_sum_lens_empty(ks.drop_last());
    }
}

/// Inserting one record grows the sum by at most that record's length.
proof fn lemma_sum_lens_insert(
    ks: Seq<Seq<char>>,
    t: Map<Seq<char>, RecordInfo>,
    k: Seq<char>,
    info: RecordInfo,
)
    requires
        distinct_keys(ks),
        lens_nonneg(t),
        info.len >= 0,
    ensures
        sum_lens(ks, t.insert(k, info)) <= sum_lens(ks, t) + info.len,
    decreases ks.len(),
{
    if ks.len() > 0 {
        let dl = ks.drop_last();
        let l = ks.last();
        assert(forall|m: int| 0 <= m < dl.len() ==> #[trigger] dl[m] == ks[m]);
        assert(distinct_keys(dl));
        if l == k {
            assert(forall|m: int| 0 <= m < dl.len() ==> dl[m] != k);
            lemma_sum_lens_agree(dl, t.insert(k, info), t);
        } else {
            lemma_sum_lens_insert(dl, t, k, info);
        }
    }
}

/// Removing a record never grows the sum.
proof fn lemma_sum_lens_remove(ks: Seq<Seq<char>>, t: Map<Seq<char>, RecordInfo>, k: Seq<char>)
    requires
        lens_nonneg(t),
    ensures
        sum_lens(ks, t.remove(k)) <= sum_lens(ks, t),
    decreases ks.len(),
{
    if ks.len() > 0 {
        lemma_sum_lens_remove(ks.drop_last(), t, k);
    }
}

/// Folding one record grows the listed keys' footprint by at most the
/// record's length.
proof fn lemma_apply_record_live(
    ks: Seq<Seq<char>>,
    st: ReplayState,
    c: CommandView,
    id: int,
    off: int,
    len: int,
)
    requires
        distinct_keys(ks),
        lens_nonneg(st.table),
        len >= 0,
    ensures
        sum_lens(ks, apply_record(st, c, id, off, len).table) <= sum_lens(ks, st.table) + len,
        lens_nonneg(apply_record(st, c, id, off, len).table),
{
    match c {
        CommandView::Insertion { key, value } => {
            lemma_sum_lens_insert(ks, st.table, key, RecordInfo { file_id: id, off, len });
        },
        CommandView::Discard { key } => {
            lemma_sum_lens_remove(ks, st.table, key);
        },
    }
}

/// Replaying a segment's tail grows the footprint by at most the bytes
/// replayed.
proof fn lemma_run_seg_live(ks: Seq<Seq<char>>, st: ReplayState, id: int, data: Seq<u8>, i: int)
    requires
        distinct_keys(ks),
        lens_nonneg(st.table),
        0 <= i <= data.len(),
        run_seg(st, id, data, i) is Some,
    ensures
        sum_lens(ks, run_seg(st, id, data, i)->Some_0.table) <= sum_lens(ks, st.table) + (data.len()
            - i),
        lens_nonneg(run_seg(st, id, data, i)->Some_0.table),
    decreases data.len() - i,
{
    if i == data.len() {
    } else {
        let j = find_nl(data, i)->Some_0;
        lemma_find_nl_sound(data, i);
        let line = data.subrange(i, j + 1);
        let c = parse_line(line)->Some_0;
        let st2 = apply_record(st, c, id, i, j + 1 - i);
        lemma_apply_record_live(ks, st, c, id, i, j + 1 - i);
        lemma_run_seg_live(ks, st2, id, data, j + 1);
    }
}

/// Replaying a run of segments grows the footprint by at most their total
/// size.
proof fn lemma_run_segs_live(ks: Seq<Seq<char>>, st: ReplayState, ss: Seq<SegmentView>)
    requires
        distinct_keys(ks),
        lens_nonneg(st.table),
        run_segs(st, ss, 0) is Some,
    ensures
        sum_lens(ks, run_segs(st, ss, 0)->Some_0.table) <= sum_lens(ks, st.table) + seg_total(ss),
        lens_nonneg(run_segs(st, ss, 0)->Some_0.table),
    decreases ss.len(),
{
    if ss.len() == 0 {
    } else {
        lemma_run_segs_split_last(st, ss);
        let mid = run_segs(st, ss.drop_last(), 0)->Some_0;
        lemma_run_segs_live(ks, st, ss.drop_last());
        lemma_run_seg_live(ks, mid, ss.last().id, ss.last().data, 0);
    }
}

/// The live records of any distinct key list never take more bytes than
/// the whole directory: dead records only add to the total.
pub proof fn lemma_live_within_total(ks: Seq<Seq<char>>, ss: Seq<SegmentView>)
    requires
        distinct_keys(ks),
        replay(ss) is Some,
    ensures
        sum_lens(ks, replay(ss)->Some_0.table) <= seg_total(ss),
{
    lemma_sum_lens_empty(ks);
    lemma_run_segs_live(ks, init_replay(), ss);
}

} // verus!
