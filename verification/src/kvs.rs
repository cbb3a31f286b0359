//! The log-structured storage engine.
//!
//! The store is an append-only log split into numbered segments, together
//! with an in-memory index from each live key to the log pointer of its
//! most recent `Set` record.  The segment bytes are the durable state: the
//! surrounding process keeps one file per segment with the segment's id as
//! its name, reads them into a [`Directory`] to open the store, and mirrors
//! the segment bytes back to disk after each write.  Everything the engine
//! decides — what bytes a write appends, where the index points, when the
//! log rotates, which segments compaction migrates or deletes — happens
//! here, on plain values, and is verified.

use crate::engines::KvsEngine;
use crate::errors::KvsError;
use crate::shared::{SetCmd, Remove,

    lemma_decode_command_canonical, lemma_decode_command_extend, lemma_decode_encoded_command,
    spec_command_encodable, spec_decode_command, spec_encode_command, Command, CommandView,
};
use vstd::hash_map::StringHashMap;
use vstd::string::StringSliceAdditionalSpecFns;
use vstd::prelude::*;

verus! {

/// When the active segment grows past this many bytes, the log rotates.
pub const LOG_ROTATION_MIN_SIZE_BYTES: u64 = 256 * 1024;

/// A segment whose live-record count is at most this percentage of the
/// busiest segment's count has its live records migrated by compaction.
pub const LOG_COMPACTION_MAX_KEY_DENSITY_PERCENT: u64 = 30;

/// One append-only log segment: a numbered file's bytes.
#[derive(Debug)]
pub struct Segment {
    /// The file's basename, a nonnegative integer.
    pub id: u64,
    /// The file's bytes: a concatenation of command records.
    pub data: Vec<u8>,
}

/// The mathematical shape of a [`Segment`].
pub struct SegmentView {
    pub id: u64,
    pub data: Seq<u8>,
}

impl View for Segment {
    type V = SegmentView;

    open spec fn view(&self) -> SegmentView {
        SegmentView { id: self.id, data: self.data@ }
    }
}

/// The on-disk image of an engine directory: its segment files, each as its
/// id and bytes, in ascending id order.
#[derive(Debug)]
pub struct Directory {
    pub segments: Vec<Segment>,
}

/// The views of a run of segments.
pub open spec fn seg_views(segs: Seq<Segment>) -> Seq<SegmentView> {
    segs.map_values(|s: Segment| s@)
}

/// `(segment_id, byte_offset)`: where one command record starts in the log.
#[derive(Clone, Copy, Debug, PartialEq, Eq, Structural)]
pub struct LogPointer {
    pub id: u64,
    pub offset: u64,
}

/// What compaction decided for one segment: migrate its live records into
/// the active segment, or delete its file.
#[derive(Clone, Copy, Debug, PartialEq, Eq, Structural)]
pub enum CompactionAction {
    Migrate,
    Remove,
}

/// The segments compaction has marked, and the live records still waiting
/// to be migrated.
#[derive(Debug)]
pub struct CompactionList {
    ids: Vec<(u64, CompactionAction)>,
    migration_list: Vec<LogPointer>,
}

/// Whether the engine is inside compaction; rotation is a no-op then, so
/// compaction cannot re-enter itself through the write path.
#[derive(Clone, Copy, Debug, PartialEq, Eq, Structural)]
pub enum LogIndexState {
    Compacting,
    Ready,
}

/// What the engine knows about its segments besides their bytes.
#[derive(Debug)]
pub struct LogMetadata {
    /// The highest segment id: the only segment open for appending.
    active_log_id: u64,
    /// The byte size of the active segment.
    size: u64,
    /// Every segment id this directory has ever used, ascending.
    ids: Vec<u64>,
    /// What compaction marked, and what still waits for migration.
    eligible_for_compaction: CompactionList,
    /// Whether a compaction is underway.
    state: LogIndexState,
}

// ---------------------------------------------------------------------------
// Reading the log, as mathematics.
// ---------------------------------------------------------------------------

/// The segment with the given id, if any.
pub open spec fn find_seg(segs: Seq<SegmentView>, id: u64) -> Option<SegmentView>
    decreases segs.len(),
{
    if segs.len() == 0 {
        None
    } else if segs[0].id == id {
        Some(segs[0])
    } else {
        find_seg(segs.drop_first(), id)
    }
}

/// The command record a log pointer denotes, if its segment exists and a
/// record decodes at its offset.
pub open spec fn record_at(segs: Seq<SegmentView>, p: LogPointer) -> Option<CommandView> {
    match find_seg(segs, p.id) {
        Some(seg) => match spec_decode_command(seg.data, p.offset as int) {
            Some((c, _)) => Some(c),
            None => None,
        },
        None => None,
    }
}

/// A pointer is live for key `k` when it denotes a `Set` record for `k`.
pub open spec fn pointer_live(segs: Seq<SegmentView>, p: LogPointer, k: Seq<char>) -> bool {
    record_at(segs, p) matches Some(CommandView::SetCmd { key, .. }) && key == k
}

/// The value the record at a live pointer carries.
pub open spec fn pointer_value(segs: Seq<SegmentView>, p: LogPointer) -> Seq<char> {
    match record_at(segs, p) {
        Some(CommandView::SetCmd { value, .. }) => value,
        _ => Seq::empty(),
    }
}

/// The key the record at a pointer names, when it is a `Set` record.
pub open spec fn record_key(segs: Seq<SegmentView>, p: LogPointer) -> Seq<char> {
    match record_at(segs, p) {
        Some(CommandView::SetCmd { key, .. }) => key,
        _ => Seq::empty(),
    }
}

/// The key-to-value map an index and a run of segments observably hold.
pub open spec fn store_map(
    index: Map<Seq<char>, LogPointer>,
    segs: Seq<SegmentView>,
) -> Map<Seq<char>, Seq<char>> {
    Map::new(|k: Seq<char>| index.dom().contains(k), |k: Seq<char>| pointer_value(segs, index[k]))
}

/// What replaying one record does to the recovered map; `Get` never stands
/// in a log.
pub open spec fn replay_step(
    m: Map<Seq<char>, Seq<char>>,
    c: CommandView,
) -> Option<Map<Seq<char>, Seq<char>>> {
    match c {
        CommandView::SetCmd { key, value } => Some(m.insert(key, value)),
        CommandView::Rm { key } => Some(m.remove(key)),
        CommandView::Get { .. } => None,
    }
}

/// Replaying the records of `data` from `pos` to its end, starting from the
/// map `m`; nothing when some record is malformed.
pub open spec fn replay_bytes_from(
    data: Seq<u8>,
    pos: int,
    m: Map<Seq<char>, Seq<char>>,
) -> Option<Map<Seq<char>, Seq<char>>>
    decreases data.len() - pos,
{
    if pos == data.len() {
        Some(m)
    } else {
        match spec_decode_command(data, pos) {
            Some((c, end)) => if pos < end <= data.len() {
                match replay_step(m, c) {
                    Some(m2) => replay_bytes_from(data, end, m2),
                    None => None,
                }
            } else {
                None
            },
            None => None,
        }
    }
}

/// Whether the bytes of one segment are a whole concatenation of `Set` and
/// `Rm` records from `pos` to the end.
pub open spec fn data_ok(data: Seq<u8>, pos: int) -> bool
    decreases data.len() - pos,
{
    if pos == data.len() {
        true
    } else {
        match spec_decode_command(data, pos) {
            Some((c, end)) => !(c is Get) && pos < end <= data.len() && data_ok(data, end),
            None => false,
        }
    }
}

/// Replaying the given segments in order, starting from the map `m`.
pub open spec fn replay_segments_from(
    segs: Seq<SegmentView>,
    i: int,
    m: Map<Seq<char>, Seq<char>>,
) -> Option<Map<Seq<char>, Seq<char>>>
    decreases segs.len() - i,
{
    if i < 0 || i >= segs.len() {
        Some(m)
    } else {
        match replay_bytes_from(segs[i].data, 0, m) {
            Some(m2) => replay_segments_from(segs, i + 1, m2),
            None => None,
        }
    }
}

/// The map that recovery reconstructs from a directory: every segment
/// replayed in ascending id order.
pub open spec fn disk_map(segs: Seq<SegmentView>) -> Option<Map<Seq<char>, Seq<char>>> {
    replay_segments_from(segs, 0, Map::empty())
}

/// Replay of well-formed bytes never fails, whatever map it starts from.
pub proof fn lemma_data_ok_replay(data: Seq<u8>, pos: int, m: Map<Seq<char>, Seq<char>>)
    requires
        data_ok(data, pos),
    ensures
        replay_bytes_from(data, pos, m) is Some,
    decreases data.len() - pos,
{
    if pos != data.len() {
        let (c, end) = spec_decode_command(data, pos)->Some_0;
        lemma_data_ok_replay(data, end, replay_step(m, c)->Some_0);
    }
}

/// Whether segment ids strictly ascend: every id occurs once and the last
/// segment carries the highest id.
pub open spec fn ids_sorted(segs: Seq<SegmentView>) -> bool {
    forall|i: int, j: int| 0 <= i < j < segs.len() ==> segs[i].id < segs[j].id
}

/// The first segment with a given id is what `find_seg` yields.
pub proof fn lemma_find_seg_first(segs: Seq<SegmentView>, id: u64, i: int)
    requires
        0 <= i < segs.len(),
        segs[i].id == id,
        forall|j: int| 0 <= j < i ==> segs[j].id != id,
    ensures
        find_seg(segs, id) == Some(segs[i]),
    decreases segs.len(),
{
    if i > 0 {
        lemma_find_seg_first(segs.drop_first(), id, i - 1);
    }
}

/// Where no segment has the id, `find_seg` yields nothing.
pub proof fn lemma_find_seg_absent(segs: Seq<SegmentView>, id: u64)
    requires
        forall|i: int| 0 <= i < segs.len() ==> segs[i].id != id,
    ensures
        find_seg(segs, id) is None,
    decreases segs.len(),
{
    if segs.len() > 0 {
        lemma_find_seg_absent(segs.drop_first(), id);
    }
}

/// What `find_seg` yields is a member of the run with the asked-for id.
pub proof fn lemma_find_seg_member(segs: Seq<SegmentView>, id: u64)
    requires
        find_seg(segs, id) is Some,
    ensures
        ({
            let s = find_seg(segs, id)->Some_0;
            s.id == id && exists|i: int| 0 <= i < segs.len() && segs[i] == s
        }),
    decreases segs.len(),
{
    if segs[0].id != id {
        lemma_find_seg_member(segs.drop_first(), id);
        let s = find_seg(segs, id)->Some_0;
        let i = choose|i: int| 0 <= i < segs.drop_first().len() && segs.drop_first()[i] == s;
        assert(segs[i + 1] == s);
    }
}

/// With ascending ids, looking a segment's own id up yields that segment.
pub proof fn lemma_find_seg_at(segs: Seq<SegmentView>, i: int)
    requires
        ids_sorted(segs),
        0 <= i < segs.len(),
    ensures
        find_seg(segs, segs[i].id) == Some(segs[i]),
{
    lemma_find_seg_first(segs, segs[i].id, i);
}

/// Extending the bytes of one segment, or touching none, leaves every
/// record that some pointer already reached as it was.
pub proof fn lemma_record_at_extend(
    segs: Seq<SegmentView>,
    segs2: Seq<SegmentView>,
    k: int,
    more: Seq<u8>,
    p: LogPointer,
)
    requires
        ids_sorted(segs),
        0 <= k < segs.len(),
        segs2.len() == segs.len(),
        forall|i: int| 0 <= i < segs.len() && i != k ==> segs2[i] == segs[i],
        segs2[k].id == segs[k].id,
        segs2[k].data == segs[k].data + more,
        record_at(segs, p) is Some,
    ensures
        record_at(segs2, p) == record_at(segs, p),
        ids_sorted(segs2),
{
    lemma_find_seg_member(segs, p.id);
    let s = find_seg(segs, p.id)->Some_0;
    let i = choose|i: int| 0 <= i < segs.len() && segs[i] == s;
    assert(forall|a: int, b: int| 0 <= a < b < segs2.len() ==> segs2[a].id < segs2[b].id);
    lemma_find_seg_at(segs, i);
    assert(find_seg(segs, p.id) == Some(segs[i]));
    lemma_find_seg_at(segs2, i);
    assert(segs[i].id == p.id && segs2[i].id == p.id);
    lemma_find_seg_first(segs2, p.id, i);
    if i == k {
        lemma_decode_command_extend(segs[k].data, more, p.offset as int);
    }
}

/// Appending a segment with a fresh id leaves every lookup of an old id
/// as it was, and a lookup of the fresh id finds the new segment.
pub proof fn lemma_find_seg_push(segs: Seq<SegmentView>, s: SegmentView, id: u64)
    requires
        forall|i: int| 0 <= i < segs.len() ==> segs[i].id < s.id,
    ensures
        id != s.id ==> find_seg(segs.push(s), id) == find_seg(segs, id),
        find_seg(segs.push(s), id) is Some || id != s.id,
    decreases segs.len(),
{
    let segs2 = segs.push(s);
    if segs.len() == 0 {
        assert(segs2.len() == 1 && segs2[0] == s);
    } else {
        assert(segs2[0] == segs[0]);
        assert(segs.drop_first().push(s) =~= segs2.drop_first());
        lemma_find_seg_push(segs.drop_first(), s, id);
    }
}

/// Inserting a live pointer into an index inserts its value into the map
/// the store observably holds.
pub proof fn lemma_store_map_insert(
    index: Map<Seq<char>, LogPointer>,
    segs: Seq<SegmentView>,
    k: Seq<char>,
    p: LogPointer,
)
    requires
        pointer_live(segs, p, k),
    ensures
        store_map(index.insert(k, p), segs) =~= store_map(index, segs).insert(
            k,
            pointer_value(segs, p),
        ),
{
}

/// Dropping a key from an index drops it from the map the store holds.
pub proof fn lemma_store_map_remove(
    index: Map<Seq<char>, LogPointer>,
    segs: Seq<SegmentView>,
    k: Seq<char>,
)
    ensures
        store_map(index.remove(k), segs) =~= store_map(index, segs).remove(k),
{
}

/// Replay succeeds exactly on well-formed bytes, whatever map it starts
/// from.
pub proof fn lemma_replay_some_iff_data_ok(data: Seq<u8>, pos: int, m: Map<Seq<char>, Seq<char>>)
    ensures
        replay_bytes_from(data, pos, m) is Some <==> data_ok(data, pos),
    decreases data.len() - pos,
{
    if pos != data.len() {
        match spec_decode_command(data, pos) {
            Some((c, end)) => {
                if pos < end <= data.len() {
                    match replay_step(m, c) {
                        Some(m2) => {
                            lemma_replay_some_iff_data_ok(data, end, m2);
                        },
                        None => {},
                    }
                }
            },
            None => {},
        }
    }
}

// ---------------------------------------------------------------------------
// The key index: a hash map plus the list of its keys, so that compaction
// can walk every live key.
// ---------------------------------------------------------------------------

/// The views of the listed keys, in list order.
pub open spec fn key_views(keys: Seq<String>) -> Seq<Seq<char>> {
    keys.map_values(|s: String| s@)
}

/// The in-memory key index: each live key and the log pointer of its most
/// recent `Set` record.  The key list carries the same keys as the map, so
/// the index can be walked.
pub struct PointerIndex {
    map: StringHashMap<LogPointer>,
    keys: Vec<String>,
}

impl View for PointerIndex {
    type V = Map<Seq<char>, LogPointer>;

    closed spec fn view(&self) -> Map<Seq<char>, LogPointer> {
        self.map@
    }
}

impl PointerIndex {
    /// The key list and the map hold exactly the same keys, each once.
    pub closed spec fn wf(&self) -> bool {
        &&& key_views(self.keys@).no_duplicates()
        &&& forall|i: int|
            0 <= i < self.keys@.len() ==> self@.dom().contains(#[trigger] key_views(self.keys@)[i])
        &&& forall|k: Seq<char>|
            #[trigger] self@.dom().contains(k) ==> key_views(self.keys@).contains(k)
    }

    /// The views of the listed keys: the index's domain as a sequence.
    pub closed spec fn key_seq(&self) -> Seq<Seq<char>> {
        key_views(self.keys@)
    }

    /// An empty index.
    pub fn new() -> (r: PointerIndex)
        ensures
            r.wf(),
            r@ == Map::<Seq<char>, LogPointer>::empty(),
    {
        let r = PointerIndex { map: StringHashMap::new(), keys: Vec::new() };
        proof {
            assert(key_views(r.keys@) =~= Seq::<Seq<char>>::empty());
        }
        r
    }

    /// How many keys are live.
    pub fn key_count(&self) -> (r: usize)
        ensures
            r == self.key_seq().len(),
    {
        self.keys.len()
    }

    /// The `i`-th live key, in list order.
    pub fn key_at(&self, i: usize) -> (r: &String)
        requires
            i < self.key_seq().len(),
        ensures
            r@ == self.key_seq()[i as int],
    {
        &self.keys[i]
    }

    /// The pointer of one key, if it is live.
    pub fn get(&self, key: &String) -> (r: Option<LogPointer>)
        ensures
            match r {
                Some(p) => self@.contains_key(key@) && p == self@[key@],
                None => !self@.contains_key(key@),
            },
    {
        match self.map.get(key.as_str()) {
            Some(p) => Some(*p),
            None => None,
        }
    }

    /// Whether one key is live.
    pub fn contains_key(&self, key: &String) -> (r: bool)
        ensures
            r == self@.contains_key(key@),
    {
        self.map.contains_key(key.as_str())
    }

    /// Points `key` at `p`, adding the key if it was absent.
    pub fn insert(&mut self, key: String, p: LogPointer)
        requires
            old(self).wf(),
        ensures
            final(self).wf(),
            final(self)@ == old(self)@.insert(key@, p),
    {
        let ghost kv = key@;
        let ghost old_keys = self.keys@;
        let ghost old_map = self.map@;
        let was_absent = !self.map.contains_key(key.as_str());
        if was_absent {
            self.keys.push(key.clone());
        }
        self.map.insert(key, p);
        proof {
            let ov = key_views(old_keys);
            let nv = key_views(self.keys@);
            if was_absent {
                assert(nv =~= ov.push(kv));
                assert forall|a: int, b: int|
                    0 <= a < nv.len() && 0 <= b < nv.len() && a != b implies nv[a] != nv[b] by {
                    if a < ov.len() && b < ov.len() {
                        assert(nv[a] == ov[a] && nv[b] == ov[b]);
                    } else if a < ov.len() {
                        assert(old_map.dom().contains(ov[a]));
                        assert(nv[b] == kv);
                    } else if b < ov.len() {
                        assert(old_map.dom().contains(ov[b]));
                        assert(nv[a] == kv);
                    }
                }
                assert(nv.no_duplicates());
            } else {
                assert(nv == ov);
            }
            assert forall|k: Seq<char>| #[trigger] self.map@.dom().contains(k) implies nv.contains(
                k,
            ) by {
                if k == kv {
                    if was_absent {
                        assert(nv[nv.len() - 1] == kv);
                    } else {
                        assert(old(self)@.dom().contains(kv));
                        assert(key_views(old(self).keys@).contains(kv));
                        assert(ov == key_views(old(self).keys@));
                        assert(ov.contains(kv));
                    }
                } else {
                    assert(old(self)@.dom().contains(k));
                    assert(key_views(old(self).keys@).contains(k));
                    assert(ov == key_views(old(self).keys@));
                    assert(ov.contains(k));
                    let w = choose|w: int| 0 <= w < ov.len() && ov[w] == k;
                    assert(nv[w] == k);
                }
            }
            assert forall|i: int| 0 <= i < nv.len() implies self.map@.dom().contains(
                #[trigger] nv[i],
            ) by {
                if i < ov.len() {
                    assert(old_map.dom().contains(ov[i]));
                } else {
                    assert(nv[i] == kv);
                }
            }
        }
    }

    /// Drops `key` from the index; without effect when it is absent.
    pub fn remove(&mut self, key: &String)
        requires
            old(self).wf(),
        ensures
            final(self).wf(),
            final(self)@ == old(self)@.remove(key@),
    {
        let ghost old_keys = self.keys@;
        let ghost old_map = self.map@;
        if self.map.contains_key(key.as_str()) {
            let mut i: usize = 0;
            while i < self.keys.len() && !(self.keys[i] == *key)
                invariant
                    i <= self.keys@.len(),
                    forall|j: int| 0 <= j < i ==> key_views(self.keys@)[j] != key@,
                decreases self.keys@.len() - i,
            {
                i += 1;
            }
            proof {
                assert(old(self)@.dom().contains(key@));
                assert(key_views(old(self).keys@).contains(key@));
                assert(old_keys == old(self).keys@);
                assert(key_views(old_keys).contains(key@));
                if i == self.keys@.len() {
                    let w = choose|w: int|
                        0 <= w < key_views(old_keys).len() && key_views(old_keys)[w] == key@;
                    assert(key_views(old_keys)[w] != key@);
                }
                assert(key_views(old_keys)[i as int] == key@);
            }
            let ghost ii = i as int;
            self.keys.remove(i);
            self.map.remove(key.as_str());
            proof {
                let ov = key_views(old_keys);
                let nv = key_views(self.keys@);
                assert(nv =~= ov.subrange(0, ii) + ov.subrange(ii + 1, ov.len() as int));
                assert forall|a: int, b: int|
                    0 <= a < nv.len() && 0 <= b < nv.len() && a != b implies nv[a] != nv[b] by {
                    let a0: int = if a < ii { a } else { a + 1 };
                    let b0: int = if b < ii { b } else { b + 1 };
                    assert(nv[a] == ov[a0]);
                    assert(nv[b] == ov[b0]);
                }
                assert(nv.no_duplicates());
                assert forall|j: int| 0 <= j < nv.len() implies self.map@.dom().contains(
                    #[trigger] nv[j],
                ) by {
                    let j0: int = if j < ii { j } else { j + 1 };
                    assert(nv[j] == ov[j0]);
                    assert(ov[j0] != ov[ii]);
                    assert(old_map.dom().contains(ov[j0]));
                }
                assert forall|k: Seq<char>| #[trigger] self.map@.dom().contains(
                    k,
                ) implies nv.contains(k) by {
                    assert(old(self)@.dom().contains(k));
                    assert(key_views(old(self).keys@).contains(k));
                    assert(ov == key_views(old(self).keys@));
                    assert(ov.contains(k));
                    let w = choose|w: int| 0 <= w < ov.len() && ov[w] == k;
                    if w < ii {
                        assert(nv[w] == k);
                    } else {
                        assert(w != ii);
                        assert(nv[w - 1] == k);
                    }
                }
            }
        } else {
            self.map.remove(key.as_str());
            proof {
                let nv = key_views(self.keys@);
                assert(nv == key_views(old(self).keys@));
                assert forall|k: Seq<char>| #[trigger] self.map@.dom().contains(
                    k,
                ) implies nv.contains(k) by {
                    assert(old(self)@.dom().contains(k));
                    assert(key_views(old(self).keys@).contains(k));
                }
                assert forall|j: int| 0 <= j < nv.len() implies self.map@.dom().contains(
                    #[trigger] nv[j],
                ) by {
                    assert(old(self)@.dom().contains(nv[j]));
                    assert(!old(self)@.dom().contains(key@));
                }
            }
        }
    }
}

// ---------------------------------------------------------------------------
// The engine itself.
// ---------------------------------------------------------------------------

/// The log-structured engine: the key index, the segment bytes, and the
/// metadata that rotation and compaction maintain.
pub struct LogIndex {
    database: PointerIndex,
    segments: Vec<Segment>,
    metadata: LogMetadata,
    clean: Ghost<bool>,
}

impl View for LogIndex {
    type V = Map<Seq<char>, Seq<char>>;

    /// The key-to-value map the engine holds.
    closed spec fn view(&self) -> Map<Seq<char>, Seq<char>> {
        store_map(self.database@, self.segs())
    }
}

impl LogIndex {
    /// The views of the engine's segments, in ascending id order.
    pub closed spec fn segs(&self) -> Seq<SegmentView> {
        seg_views(self.segments@)
    }

    /// True until the first compaction: while it holds, the segments replay
    /// to exactly the live map, so a reopen reproduces the state.
    pub closed spec fn is_clean(&self) -> bool {
        self.clean@
    }

    /// The compaction marks, as pairs of id and action.
    pub closed spec fn marks(&self) -> Seq<(u64, CompactionAction)> {
        self.metadata.eligible_for_compaction.ids@
    }

    /// What holds of the engine at every step, inside compaction included.
    pub closed spec fn base_inv(&self) -> bool {
        // segments: at least the active one, ascending ids, the metadata in step
        &&& self.segments@.len() >= 1
        &&& ids_sorted(self.segs())
        &&& self.metadata.active_log_id == self.segs().last().id
        &&& self.metadata.size == self.segs().last().data.len()
        // the id history ascends and ends at the active id; every segment is in it
        &&& self.metadata.ids@.len() >= 1
        &&& forall|i: int, j: int|
            0 <= i < j < self.metadata.ids@.len() ==> self.metadata.ids@[i] < self.metadata.ids@[j]
        &&& self.metadata.ids@.last() == self.metadata.active_log_id
        &&& forall|i: int|
            0 <= i < self.segs().len() ==> self.metadata.ids@.contains(#[trigger] self.segs()[i].id)
        // the index is sound: every entry points at a Set record for its key
        &&& self.database.wf()
        &&& forall|k: Seq<char>|
            #[trigger] self.database@.dom().contains(k) ==> pointer_live(
                self.segs(),
                self.database@[k],
                k,
            )
        // every segment is a whole concatenation of Set and Rm records
        &&& forall|i: int|
            0 <= i < self.segs().len() ==> data_ok((#[trigger] self.segs()[i]).data, 0)
        // compaction marks name known ids, each id at most once
        &&& forall|i: int, j: int|
            0 <= i < j < self.marks().len() ==> (#[trigger] self.marks()[i]).0 != (
            #[trigger] self.marks()[j]).0
        &&& forall|i: int|
            0 <= i < self.marks().len() ==> self.metadata.ids@.contains(
                (#[trigger] self.marks()[i]).0,
            )
    }

    /// What holds of the engine between operations: no compaction underway,
    /// no migration pending, every marked segment already deleted, and — as
    /// long as the store is clean — a replay of the segments gives exactly
    /// the live map.
    pub closed spec fn inv(&self) -> bool {
        &&& self.base_inv()
        &&& self.metadata.state == LogIndexState::Ready
        &&& self.metadata.eligible_for_compaction.migration_list@.len() == 0
        &&& forall|i: int|
            0 <= i < self.marks().len() ==> (#[trigger] self.marks()[i]).1
                == CompactionAction::Remove && find_seg(self.segs(), self.marks()[i].0) is None
        &&& self.clean@ ==> disk_map(self.segs()) == Some(self@)
    }

    /// The position of the segment with the given id, if one exists.
    fn find_segment(&self, id: u64) -> (r: Option<usize>)
        ensures
            match r {
                Some(i) => i < self.segments@.len() && self.segs()[i as int].id == id && find_seg(
                    self.segs(),
                    id,
                ) == Some(self.segs()[i as int]),
                None => find_seg(self.segs(), id) is None,
            },
    {
        let mut i: usize = 0;
        while i < self.segments.len()
            invariant
                i <= self.segments@.len(),
                forall|j: int| 0 <= j < i ==> self.segs()[j].id != id,
            decreases self.segments@.len() - i,
        {
            if self.segments[i].id == id {
                proof {
                    lemma_find_seg_first(self.segs(), id, i as int);
                }
                return Some(i);
            }
            i += 1;
        }
        proof {
            lemma_find_seg_absent(self.segs(), id);
        }
        None
    }

    /// Reads the record one log pointer denotes: the command, or nothing
    /// when no segment has the pointer's id, or an error when no whole
    /// record decodes at the pointer's offset.
    fn get_command(&self, pointer: &LogPointer) -> (r: Result<Option<Command>, KvsError>)
        ensures
            r matches Ok(Some(c)) ==> record_at(self.segs(), *pointer) == Some(c@),
            r matches Ok(None) ==> find_seg(self.segs(), pointer.id) is None,
            r is Err ==> find_seg(self.segs(), pointer.id) is Some && record_at(
                self.segs(),
                *pointer,
            ) is None,
    {
        match self.find_segment(pointer.id) {
            None => Ok(None),
            Some(i) => {
                let data = &self.segments[i].data;
                if pointer.offset >= data.len() as u64 {
                    return Err(KvsError::SerializationError);
                }
                match crate::shared::decode_command(data.as_slice(), pointer.offset as usize) {
                    Ok((c, _end)) => Ok(Some(c)),
                    Err(_) => Err(KvsError::SerializationError),
                }
            },
        }
    }

    /// Looks one key up: the value of its most recent `Set`, or nothing
    /// when the key is absent.
    fn get_value(&self, key: String) -> (r: Result<Option<String>, KvsError>)
        requires
            self.base_inv(),
        ensures
            r is Ok,
            r matches Ok(Some(s)) ==> self@.dom().contains(key@) && s@ == self@[key@],
            r matches Ok(None) ==> !self@.dom().contains(key@),
    {
        match self.database.get(&key) {
            None => Ok(None),
            Some(p) => {
                proof {
                    assert(self.database@.dom().contains(key@));
                    assert(pointer_live(self.segs(), p, key@));
                }
                match self.get_command(&p) {
                    Ok(Some(c)) => match c.value() {
                        Some(v) => Ok(Some(v.clone())),
                        None => {
                            proof {
                                assert(false);
                            }
                            Err(KvsError::SerializationError)
                        },
                    },
                    Ok(None) => {
                        proof {
                            assert(false);
                        }
                        Ok(None)
                    },
                    Err(e) => {
                        proof {
                            assert(false);
                        }
                        Err(e)
                    },
                }
            },
        }
    }
}

/// Ids ascending pair by pair ascend everywhere.
proof fn lemma_adjacent_sorted(segs: Seq<SegmentView>, i: int, j: int)
    requires
        forall|k: int| 0 < k < segs.len() ==> segs[k - 1].id < #[trigger] segs[k].id,
        0 <= i <= j < segs.len(),
    ensures
        i < j ==> segs[i].id < segs[j].id,
    decreases j - i,
{
    if i < j {
        lemma_adjacent_sorted(segs, i, j - 1);
    }
}

/// What replaying the rest of the log gives: the open segment from `pos`
/// on, then every later segment.
pub open spec fn replay_rest(
    segs: Seq<SegmentView>,
    si: int,
    pos: int,
    m: Map<Seq<char>, Seq<char>>,
) -> Option<Map<Seq<char>, Seq<char>>> {
    match replay_bytes_from(segs[si].data, pos, m) {
        Some(m2) => replay_segments_from(segs, si + 1, m2),
        None => None,
    }
}

/// The segments recovery actually replays: an empty directory starts the
/// log with one empty segment of id `0`.
pub open spec fn normalize_dir(segs: Seq<SegmentView>) -> Seq<SegmentView> {
    if segs.len() == 0 {
        seq![SegmentView { id: 0u64, data: Seq::empty() }]
    } else {
        segs
    }
}

impl LogIndex {
    /// Applies one logged command to the key index: a `Set` points its key
    /// at the record, a `Rm` drops its key.
    fn update_log_index(index: &mut PointerIndex, command: Command, log_pointer: LogPointer)
        requires
            old(index).wf(),
            !(command@ is Get),
        ensures
            final(index).wf(),
            final(index)@ == match command@ {
                CommandView::SetCmd { key, .. } => old(index)@.insert(key, log_pointer),
                CommandView::Rm { key } => old(index)@.remove(key),
                CommandView::Get { .. } => old(index)@,
            },
    {
        match command {
            Command::SetCmd(cmd) => index.insert(cmd.key, log_pointer),
            Command::Rm(cmd) => index.remove(&cmd.key),
            Command::Get(_) => {
                proof {
                    assert(false);
                }
            },
        }
    }

    /// Lays a directory out as an engine: an empty directory gets segment
    /// `0`, ids must strictly ascend, and the highest id becomes the active
    /// segment.  The index is not built here; replay does that.
    fn new(dir: Directory) -> (r: Result<LogIndex, KvsError>)
        ensures
            r is Ok <==> ids_sorted(normalize_dir(seg_views(dir.segments@))),
            r matches Ok(li) ==> {
                &&& li.segs() == normalize_dir(seg_views(dir.segments@))
                &&& li.segments@.len() >= 1
                &&& ids_sorted(li.segs())
                &&& li.metadata.active_log_id == li.segs().last().id
                &&& li.metadata.size == li.segs().last().data.len()
                &&& li.metadata.ids@.len() >= 1
                &&& forall|i: int, j: int|
                    0 <= i < j < li.metadata.ids@.len() ==> li.metadata.ids@[i]
                        < li.metadata.ids@[j]
                &&& li.metadata.ids@.last() == li.metadata.active_log_id
                &&& forall|i: int|
                    0 <= i < li.segs().len() ==> li.metadata.ids@.contains(
                        #[trigger] li.segs()[i].id,
                    )
                &&& li.database.wf()
                &&& li.database@ == Map::<Seq<char>, LogPointer>::empty()
                &&& li.metadata.eligible_for_compaction.ids@.len() == 0
                &&& li.metadata.eligible_for_compaction.migration_list@.len() == 0
                &&& li.metadata.state == LogIndexState::Ready
            },
            r matches Err(e) ==> e == KvsError::LogIndexIDError,
    {
        let mut segments = dir.segments;
        if segments.len() == 0 {
            segments.push(Segment { id: 0, data: Vec::new() });
        }
        let mut i: usize = 1;
        while i < segments.len()
            invariant
                1 <= i,
                segments@.len() >= 1,
                seg_views(segments@) == normalize_dir(seg_views(dir.segments@)),
                forall|k: int| 0 < k < i ==> seg_views(segments@)[k - 1].id < #[trigger] seg_views(
                    segments@,
                )[k].id,
            decreases segments@.len() - i,
        {
            if segments[i - 1].id >= segments[i].id {
                proof {
                    assert(seg_views(segments@)[i - 1].id >= seg_views(segments@)[i as int].id);
                    assert(!ids_sorted(normalize_dir(seg_views(dir.segments@))));
                }
                return Err(KvsError::LogIndexIDError);
            }
            i += 1;
        }
        proof {
            assert forall|a: int, b: int|
                0 <= a < b < seg_views(segments@).len() implies seg_views(segments@)[a].id
                < seg_views(segments@)[b].id by {
                lemma_adjacent_sorted(seg_views(segments@), a, b);
            }
        }
        let mut ids: Vec<u64> = Vec::new();
        let mut j: usize = 0;
        while j < segments.len()
            invariant
                j <= segments@.len(),
                ids@.len() == j,
                forall|k: int| 0 <= k < j ==> ids@[k] == seg_views(segments@)[k].id,
            decreases segments@.len() - j,
        {
            let id = segments[j].id;
            ids.push(id);
            j += 1;
        }
        let last = segments.len() - 1;
        let active_log_id = segments[last].id;
        let size = segments[last].data.len() as u64;
        let li = LogIndex {
            database: PointerIndex::new(),
            segments,
            metadata: LogMetadata {
                active_log_id,
                size,
                ids,
                eligible_for_compaction: CompactionList {
                    ids: Vec::new(),
                    migration_list: Vec::new(),
                },
                state: LogIndexState::Ready,
            },
            clean: Ghost(false),
        };
        proof {
            assert forall|i2: int| 0 <= i2 < li.segs().len() implies li.metadata.ids@.contains(
                #[trigger] li.segs()[i2].id,
            ) by {
                assert(li.metadata.ids@[i2] == li.segs()[i2].id);
            }
        }
        Ok(li)
    }

    /// Rebuilds the key index by replaying every segment in ascending id
    /// order: each `Set` points its key at that record, each `Rm` drops its
    /// key.  Refuses the directory when any record is malformed or out of
    /// place.
    fn replay_log(self) -> (r: Result<LogIndex, KvsError>)
        requires
            self.segments@.len() >= 1,
            ids_sorted(self.segs()),
            self.metadata.active_log_id == self.segs().last().id,
            self.metadata.size == self.segs().last().data.len(),
            self.metadata.ids@.len() >= 1,
            forall|i: int, j: int|
                0 <= i < j < self.metadata.ids@.len() ==> self.metadata.ids@[i]
                    < self.metadata.ids@[j],
            self.metadata.ids@.last() == self.metadata.active_log_id,
            forall|i: int|
                0 <= i < self.segs().len() ==> self.metadata.ids@.contains(
                    #[trigger] self.segs()[i].id,
                ),
            self.database.wf(),
            self.database@ == Map::<Seq<char>, LogPointer>::empty(),
            self.metadata.eligible_for_compaction.ids@.len() == 0,
            self.metadata.eligible_for_compaction.migration_list@.len() == 0,
            self.metadata.state == LogIndexState::Ready,
        ensures
            r is Ok <==> disk_map(self.segs()) is Some,
            r matches Ok(li) ==> {
                &&& li.inv()
                &&& li.is_clean()
                &&& li.segs() == self.segs()
                &&& Some(li@) == disk_map(self.segs())
            },
            r matches Err(e) ==> e == KvsError::SerializationError,
    {
        let mut li = self;
        let ghost segs = li.segs();
        let ghost md = li.metadata;
        proof {
            assert(segs == self.segs());
        }
        proof {
            assert(store_map(li.database@, segs) =~= Map::<Seq<char>, Seq<char>>::empty());
        }
        let mut si: usize = 0;
        while si < li.segments.len()
            invariant
                si <= li.segments@.len(),
                li.metadata == md,
                segs == li.segs(),
                segs == self.segs(),
                ids_sorted(segs),
                li.database.wf(),
                forall|k: Seq<char>|
                    #[trigger] li.database@.dom().contains(k) ==> pointer_live(
                        segs,
                        li.database@[k],
                        k,
                    ),
                forall|j: int| 0 <= j < si ==> data_ok((#[trigger] segs[j]).data, 0),
                replay_segments_from(segs, si as int, store_map(li.database@, segs)) == disk_map(
                    segs,
                ),
            decreases li.segments@.len() - si,
        {
            let mut pos: usize = 0;
            let seg_len = li.segments[si].data.len();
            let seg_id = li.segments[si].id;
            while pos < seg_len
                invariant
                    si < li.segments@.len(),
                    pos <= seg_len,
                    seg_len == segs[si as int].data.len(),
                    seg_id == segs[si as int].id,
                    li.metadata == md,
                    segs == li.segs(),
                    segs == self.segs(),
                    ids_sorted(segs),
                    li.database.wf(),
                    forall|k: Seq<char>|
                        #[trigger] li.database@.dom().contains(k) ==> pointer_live(
                            segs,
                            li.database@[k],
                            k,
                        ),
                    forall|j: int| 0 <= j < si ==> data_ok((#[trigger] segs[j]).data, 0),
                    data_ok(segs[si as int].data, pos as int) ==> data_ok(segs[si as int].data, 0),
                    replay_rest(segs, si as int, pos as int, store_map(li.database@, segs))
                        == disk_map(segs),
                decreases seg_len - pos,
            {
                let (command, end) = match crate::shared::decode_command(
                    li.segments[si].data.as_slice(),
                    pos,
                ) {
                    Ok(ce) => ce,
                    Err(_) => {
                        proof {
                            assert(replay_bytes_from(
                                segs[si as int].data,
                                pos as int,
                                store_map(li.database@, segs),
                            ) is None);
                            assert(replay_rest(
                                segs,
                                si as int,
                                pos as int,
                                store_map(li.database@, segs),
                            ) is None);
                            assert(disk_map(self.segs()) is None);
                        }
                        return Err(KvsError::SerializationError);
                    },
                };
                if let Command::Get(_) = &command {
                    proof {
                        assert(replay_bytes_from(
                            segs[si as int].data,
                            pos as int,
                            store_map(li.database@, segs),
                        ) is None);
                        assert(replay_rest(
                            segs,
                            si as int,
                            pos as int,
                            store_map(li.database@, segs),
                        ) is None);
                        assert(disk_map(self.segs()) is None);
                    }
                    return Err(KvsError::SerializationError);
                }
                proof {
                    lemma_decode_command_canonical(segs[si as int].data, pos as int);
                    lemma_find_seg_at(segs, si as int);
                }
                let ghost db_before = li.database@;
                let ghost cv = command@;
                let log_pointer = LogPointer { id: seg_id, offset: pos as u64 };
                Self::update_log_index(&mut li.database, command, log_pointer);
                proof {
                    let m_before = store_map(db_before, segs);
                    match cv {
                        CommandView::SetCmd { key, value } => {
                            assert(pointer_live(segs, log_pointer, key));
                            lemma_store_map_insert(db_before, segs, key, log_pointer);
                            assert(pointer_value(segs, log_pointer) == value);
                            assert(store_map(li.database@, segs) == m_before.insert(key, value));
                        },
                        CommandView::Rm { key } => {
                            lemma_store_map_remove(db_before, segs, key);
                            assert(store_map(li.database@, segs) == m_before.remove(key));
                        },
                        CommandView::Get { .. } => {
                            assert(false);
                        },
                    }
                    assert(replay_bytes_from(segs[si as int].data, pos as int, m_before)
                        == replay_bytes_from(
                        segs[si as int].data,
                        end as int,
                        store_map(li.database@, segs),
                    ));
                }
                pos = end;
            }
            proof {
                assert(data_ok(segs[si as int].data, pos as int));
                assert(replay_bytes_from(
                    segs[si as int].data,
                    pos as int,
                    store_map(li.database@, segs),
                ) == Some(store_map(li.database@, segs)));
            }
            si += 1;
        }
        li.clean = Ghost(true);
        proof {
            assert(disk_map(segs) == Some(store_map(li.database@, segs)));
            assert forall|i: int| 0 <= i < li.marks().len() implies (#[trigger] li.marks()[i]).1
                == CompactionAction::Remove && find_seg(li.segs(), li.marks()[i].0) is None by {}
        }
        Ok(li)
    }
}

/// Appending one whole record to well-formed bytes keeps them well formed,
/// and replays as one more step.
proof fn lemma_replay_append(
    data: Seq<u8>,
    enc: Seq<u8>,
    c: CommandView,
    pos: int,
    m: Map<Seq<char>, Seq<char>>,
)
    requires
        0 <= pos,
        data_ok(data, pos),
        spec_decode_command(data + enc, data.len() as int) == Some(
            (c, (data.len() + enc.len()) as int),
        ),
        !(c is Get),
    ensures
        data_ok(data + enc, pos),
        replay_bytes_from(data + enc, pos, m) == replay_step(
            replay_bytes_from(data, pos, m)->Some_0,
            c,
        ),
        replay_bytes_from(data, pos, m) is Some,
    decreases data.len() - pos,
{
    lemma_replay_some_iff_data_ok(data, pos, m);
    lemma_decode_command_canonical(data + enc, data.len() as int);
    if pos == data.len() {
        assert(replay_bytes_from(data, pos, m) == Some(m));
        let end = (data.len() + enc.len()) as int;
        let m2 = replay_step(m, c)->Some_0;
        assert((data + enc).len() == end);
        assert(pos < end);
        assert(replay_bytes_from(data + enc, end, m2) == Some(m2));
        assert(replay_bytes_from(data + enc, pos, m) == replay_bytes_from(data + enc, end, m2));
        assert(data_ok(data + enc, end));
        assert(data_ok(data + enc, pos));
    } else {
        assert(pos < data.len());
        let (c1, end1) = spec_decode_command(data, pos)->Some_0;
        assert(!(c1 is Get) && pos < end1 <= data.len() && data_ok(data, end1));
        lemma_decode_command_extend(data, enc, pos);
        assert(spec_decode_command(data + enc, pos) == Some((c1, end1)));
        let m2 = replay_step(m, c1)->Some_0;
        assert(replay_bytes_from(data, pos, m) == replay_bytes_from(data, end1, m2));
        assert(replay_bytes_from(data + enc, pos, m) == replay_bytes_from(data + enc, end1, m2));
        lemma_replay_append(data, enc, c, end1, m2);
        assert(data_ok(data + enc, pos));
    }
}

/// Replay of segments that are all well formed always succeeds.
proof fn lemma_disk_map_some(segs: Seq<SegmentView>, i: int, m: Map<Seq<char>, Seq<char>>)
    requires
        forall|j: int| 0 <= j < segs.len() ==> data_ok((#[trigger] segs[j]).data, 0),
    ensures
        replay_segments_from(segs, i, m) is Some,
    decreases segs.len() - i,
{
    if 0 <= i < segs.len() {
        lemma_replay_some_iff_data_ok(segs[i].data, 0, m);
        let m2 = replay_bytes_from(segs[i].data, 0, m)->Some_0;
        lemma_disk_map_some(segs, i + 1, m2);
    }
}

/// Appending one record to the last segment replays as one more step after
/// the whole log.
proof fn lemma_replay_segments_append(
    segs: Seq<SegmentView>,
    segs2: Seq<SegmentView>,
    enc: Seq<u8>,
    c: CommandView,
    i: int,
    m: Map<Seq<char>, Seq<char>>,
)
    requires
        segs.len() >= 1,
        segs2.len() == segs.len(),
        forall|j: int| 0 <= j < segs.len() - 1 ==> segs2[j] == segs[j],
        segs2[segs.len() - 1].data == segs[segs.len() - 1].data + enc,
        spec_decode_command(
            segs2[segs.len() - 1].data,
            segs[segs.len() - 1].data.len() as int,
        ) == Some((c, segs2[segs.len() - 1].data.len() as int)),
        !(c is Get),
        forall|j: int| 0 <= j < segs.len() ==> data_ok((#[trigger] segs[j]).data, 0),
        0 <= i < segs.len(),
    ensures
        replay_segments_from(segs, i, m) is Some,
        replay_segments_from(segs2, i, m) == replay_step(
            replay_segments_from(segs, i, m)->Some_0,
            c,
        ),
    decreases segs.len() - i,
{
    lemma_disk_map_some(segs, i, m);
    if i == segs.len() - 1 {
        lemma_replay_append(segs[i].data, enc, c, 0, m);
        let mm = replay_bytes_from(segs[i].data, 0, m)->Some_0;
        assert(replay_segments_from(segs, i, m) == replay_segments_from(segs, i + 1, mm));
        assert(replay_segments_from(segs, i + 1, mm) == Some(mm));
        let m2 = replay_step(mm, c)->Some_0;
        assert(replay_bytes_from(segs2[i].data, 0, m) == Some(m2));
        assert(replay_segments_from(segs2, i, m) == replay_segments_from(segs2, i + 1, m2));
        assert(replay_segments_from(segs2, i + 1, m2) == Some(m2));
    } else {
        lemma_replay_some_iff_data_ok(segs[i].data, 0, m);
        let m2 = replay_bytes_from(segs[i].data, 0, m)->Some_0;
        assert(segs2[i] == segs[i]);
        assert(replay_segments_from(segs, i, m) == replay_segments_from(segs, i + 1, m2));
        assert(replay_segments_from(segs2, i, m) == replay_segments_from(segs2, i + 1, m2));
        lemma_replay_segments_append(segs, segs2, enc, c, i + 1, m2);
    }
}

impl LogIndex {
    /// Appends one record to the active segment and publishes its key in
    /// the index.  This is the whole write path but rotation, which the
    /// caller weighs separately.
    fn append_record(&mut self, command: Command)
        requires
            old(self).base_inv(),
            !(command@ is Get),
        ensures
            final(self).base_inv(),
            final(self)@ == match command@ {
                CommandView::SetCmd { key, value } => old(self)@.insert(key, value),
                CommandView::Rm { key } => old(self)@.remove(key),
                CommandView::Get { .. } => old(self)@,
            },
            final(self).database@ == match command@ {
                CommandView::SetCmd { key, .. } => old(self).database@.insert(
                    key,
                    LogPointer {
                        id: old(self).metadata.active_log_id,
                        offset: old(self).metadata.size,
                    },
                ),
                CommandView::Rm { key } => old(self).database@.remove(key),
                CommandView::Get { .. } => old(self).database@,
            },
            final(self).metadata.active_log_id == old(self).metadata.active_log_id,
            final(self).metadata.ids == old(self).metadata.ids,
            final(self).metadata.state == old(self).metadata.state,
            final(self).metadata.eligible_for_compaction == old(self).metadata.eligible_for_compaction,
            final(self).clean == old(self).clean,
            final(self).segs().len() == old(self).segs().len(),
            forall|j: int|
                0 <= j < old(self).segs().len() - 1 ==> final(self).segs()[j] == old(self).segs()[j],
            final(self).segs().last().id == old(self).segs().last().id,
            final(self).segs().last().data == old(self).segs().last().data + spec_encode_command(
                command@,
            ),
            disk_map(old(self).segs()) is Some,
            disk_map(final(self).segs()) == replay_step(
                disk_map(old(self).segs())->Some_0,
                command@,
            ),
    {
        let ghost segs = self.segs();
        let ghost cv = command@;
        let enc = crate::shared::encode_command(&command);
        let mut active = match self.segments.pop() {
            Some(s) => s,
            None => {
                proof {
                    assert(false);
                }
                Segment { id: 0, data: Vec::new() }
            },
        };
        let offset = self.metadata.size;
        let ghost old_data = active.data@;
        let mut enc_bytes = enc;
        active.data.append(&mut enc_bytes);
        self.metadata.size = active.data.len() as u64;
        let id = self.metadata.active_log_id;
        self.segments.push(active);
        let log_pointer = LogPointer { id, offset };
        let ghost segs2 = self.segs();
        let ghost last = segs.len() - 1;
        proof {
            assert(segs2 =~= segs.update(last, segs2[last]));
            assert(segs2[last].id == segs[last].id);
            assert(segs2[last].data == old_data + spec_encode_command(cv));
            // the fresh record is small enough for its length prefixes, and
            // decodes at the old end of the segment
            assert(segs2[last].data.len() <= usize::MAX);
            crate::shared::lemma_encode_command_len(cv);
            assert(spec_command_encodable(cv));
            assert(segs2[last].data.subrange(
                old_data.len() as int,
                old_data.len() as int + spec_encode_command(cv).len() as int,
            ) =~= spec_encode_command(cv));
            lemma_decode_encoded_command(segs2[last].data, old_data.len() as int, cv);
            assert(ids_sorted(segs2));
            lemma_find_seg_at(segs2, last);
            assert(offset == old_data.len());
            // every old record keeps its meaning
            assert forall|k: Seq<char>| #[trigger] self.database@.dom().contains(k) implies
                pointer_live(segs2, self.database@[k], k) && pointer_value(
                segs2,
                self.database@[k],
            ) == pointer_value(segs, self.database@[k]) by {
                assert(pointer_live(segs, self.database@[k], k));
                lemma_record_at_extend(
                    segs,
                    segs2,
                    last,
                    spec_encode_command(cv),
                    self.database@[k],
                );
            }
            assert(store_map(self.database@, segs2) =~= store_map(self.database@, segs));
            // the whole log still replays, with one more step
            lemma_replay_segments_append(
                segs,
                segs2,
                spec_encode_command(cv),
                cv,
                0,
                Map::empty(),
            );
            lemma_replay_append(old_data, spec_encode_command(cv), cv, 0, Map::empty());
        }
        let ghost db_before = self.database@;
        Self::update_log_index(&mut self.database, command, log_pointer);
        proof {
            match cv {
                CommandView::SetCmd { key, value } => {
                    assert(pointer_live(segs2, log_pointer, key));
                    lemma_store_map_insert(db_before, segs2, key, log_pointer);
                    assert(pointer_value(segs2, log_pointer) == value);
                    assert forall|k: Seq<char>| #[trigger] self.database@.dom().contains(
                        k,
                    ) implies pointer_live(segs2, self.database@[k], k) by {
                        if k != key {
                            assert(db_before.dom().contains(k));
                        }
                    }
                },
                CommandView::Rm { key } => {
                    lemma_store_map_remove(db_before, segs2, key);
                    assert forall|k: Seq<char>| #[trigger] self.database@.dom().contains(
                        k,
                    ) implies pointer_live(segs2, self.database@[k], k) by {
                        assert(db_before.dom().contains(k));
                    }
                },
                CommandView::Get { .. } => {
                    assert(false);
                },
            }
            assert forall|j: int| 0 <= j < segs2.len() implies data_ok(
                (#[trigger] segs2[j]).data,
                0,
            ) by {
                if j != last {
                    assert(segs2[j] == segs[j]);
                    assert(data_ok(segs[j].data, 0));
                }
            }
            assert forall|i: int| 0 <= i < self.segs().len() implies self.metadata.ids@.contains(
                #[trigger] self.segs()[i].id,
            ) by {
                assert(segs2[i].id == segs[i].id);
                assert(old(self).metadata.ids@.contains(segs[i].id));
            }
            assert(self.marks() == old(self).marks());
            assert forall|i: int, j: int| 0 <= i < j < self.marks().len() implies (
            #[trigger] self.marks()[i]).0 != (#[trigger] self.marks()[j]).0 by {
                assert((old(self).marks()[i]).0 != (old(self).marks()[j]).0);
            }
            assert forall|i: int| 0 <= i < self.marks().len() implies self.metadata.ids@.contains(
                (#[trigger] self.marks()[i]).0,
            ) by {
                assert(old(self).metadata.ids@.contains((old(self).marks()[i]).0));
            }
        }
    }
}

/// Whether some mark names the given segment id.
pub open spec fn has_mark(marks: Seq<(u64, CompactionAction)>, id: u64) -> bool {
    exists|i: int| 0 <= i < marks.len() && (#[trigger] marks[i]).0 == id
}

/// Whether the given segment id is marked with the given action.
pub open spec fn mark_is(marks: Seq<(u64, CompactionAction)>, id: u64, act: CompactionAction) -> bool {
    exists|i: int| 0 <= i < marks.len() && #[trigger] marks[i] == (id, act)
}

impl CompactionList {
    /// The action marked for one segment id, if any.
    fn get_mark(&self, id: u64) -> (r: Option<CompactionAction>)
        ensures
            match r {
                Some(a) => mark_is(self.ids@, id, a),
                None => !has_mark(self.ids@, id),
            },
    {
        let mut i: usize = 0;
        while i < self.ids.len()
            invariant
                i <= self.ids@.len(),
                forall|j: int| 0 <= j < i ==> (#[trigger] self.ids@[j]).0 != id,
            decreases self.ids@.len() - i,
        {
            if self.ids[i].0 == id {
                return Some(self.ids[i].1);
            }
            i += 1;
        }
        None
    }

    /// Marks one segment id with an action, replacing an earlier mark.
    fn set_mark(&mut self, id: u64, act: CompactionAction)
        requires
            forall|i: int, j: int|
                0 <= i < j < old(self).ids@.len() ==> (#[trigger] old(self).ids@[i]).0 != (
                #[trigger] old(self).ids@[j]).0,
        ensures
            forall|i: int, j: int|
                0 <= i < j < final(self).ids@.len() ==> (#[trigger] final(self).ids@[i]).0 != (
                #[trigger] final(self).ids@[j]).0,
            mark_is(final(self).ids@, id, act),
            forall|id2: u64, a: CompactionAction|
                id2 != id ==> (mark_is(final(self).ids@, id2, a) <==> mark_is(
                    old(self).ids@,
                    id2,
                    a,
                )),
            forall|id2: u64| has_mark(final(self).ids@, id2) <==> (id2 == id || has_mark(
                old(self).ids@,
                id2,
            )),
            final(self).migration_list == old(self).migration_list,
    {
        let ghost ov = self.ids@;
        let mut i: usize = 0;
        let mut found: bool = false;
        while i < self.ids.len() && !found
            invariant
                i <= self.ids@.len(),
                self.ids@ == ov,
                !found ==> forall|j: int| 0 <= j < i ==> (#[trigger] ov[j]).0 != id,
                found ==> i >= 1 && i - 1 < ov.len() && ov[i - 1].0 == id,
            decreases self.ids@.len() - i + (if found { 0int } else { 1int }),
        {
            if self.ids[i].0 == id {
                found = true;
            }
            i += 1;
        }
        if found {
            let pos = i - 1;
            self.ids.remove(pos);
            proof {
                assert(self.ids@ =~= ov.subrange(0, pos as int) + ov.subrange(
                    pos as int + 1,
                    ov.len() as int,
                ));
            }
        }
        let ghost mid = self.ids@;
        self.ids.push((id, act));
        proof {
            let nv = self.ids@;
            let ghost pos: int = if found { i - 1 } else { ov.len() as int };
            // every entry but the new one comes from the old list, under a
            // different id
            assert forall|a: int| 0 <= a < mid.len() implies mid[a].0 != id && exists|b: int|
                0 <= b < ov.len() && ov[b] == #[trigger] mid[a] by {
                if found {
                    let b: int = if a < pos {
                        a
                    } else {
                        a + 1
                    };
                    assert(ov[b] == mid[a]);
                    assert(b != pos);
                    assert(ov[b].0 != ov[pos].0);
                } else {
                    assert(ov[a] == mid[a]);
                }
            }
            assert forall|x: int, y: int|
                0 <= x < y < nv.len() implies (#[trigger] nv[x]).0 != (#[trigger] nv[y]).0 by {
                if y < mid.len() {
                    let bx = choose|b: int| 0 <= b < ov.len() && ov[b] == mid[x];
                    let by = choose|b: int| 0 <= b < ov.len() && ov[b] == mid[y];
                    if found {
                        let px: int = if x < pos { x } else { x + 1 };
                        let py: int = if y < pos { y } else { y + 1 };
                        assert(ov[px] == mid[x] && ov[py] == mid[y]);
                        assert(ov[px].0 != ov[py].0);
                    } else {
                        assert(ov[x] == mid[x] && ov[y] == mid[y]);
                    }
                } else {
                    assert(nv[y] == (id, act));
                    assert(nv[x] == mid[x]);
                }
            }
            assert(nv[nv.len() - 1] == (id, act));
            // marks under other ids carry over, in both directions
            assert forall|id2: u64, a: CompactionAction|
                id2 != id implies (mark_is(nv, id2, a) <==> mark_is(ov, id2, a)) by {
                if mark_is(nv, id2, a) {
                    let w = choose|w: int| 0 <= w < nv.len() && nv[w] == (id2, a);
                    assert(w < mid.len());
                    let b = choose|b: int| 0 <= b < ov.len() && ov[b] == mid[w];
                    assert(ov[b] == (id2, a));
                }
                if mark_is(ov, id2, a) {
                    let w = choose|w: int| 0 <= w < ov.len() && ov[w] == (id2, a);
                    if found {
                        let pos2: int = i - 1;
                        assert(w != pos2);
                        if w < pos2 {
                            assert(nv[w] == (id2, a));
                        } else {
                            assert(nv[w - 1] == (id2, a));
                        }
                    } else {
                        assert(nv[w] == (id2, a));
                    }
                }
            }
            assert forall|id2: u64| has_mark(nv, id2) <==> (id2 == id || has_mark(ov, id2)) by {
                if has_mark(nv, id2) && id2 != id {
                    let w = choose|w: int| 0 <= w < nv.len() && (#[trigger] nv[w]).0 == id2;
                    assert(w < mid.len());
                    let b = choose|b: int| 0 <= b < ov.len() && ov[b] == mid[w];
                    assert(ov[b].0 == id2);
                }
                if id2 == id {
                    assert(nv[nv.len() - 1].0 == id2);
                }
                if has_mark(ov, id2) && id2 != id {
                    let w = choose|w: int| 0 <= w < ov.len() && (#[trigger] ov[w]).0 == id2;
                    if found {
                        let pos2: int = i - 1;
                        assert(w != pos2);
                        if w < pos2 {
                            assert(nv[w].0 == id2);
                        } else {
                            assert(nv[w - 1].0 == id2);
                        }
                    } else {
                        assert(nv[w].0 == id2);
                    }
                }
            }
        }
    }
}

/// No live pointer reaches the freshly rotated, still empty active segment.
proof fn lemma_no_pointer_into_empty_last(segs: Seq<SegmentView>, p: LogPointer, k: Seq<char>)
    requires
        ids_sorted(segs),
        segs.len() >= 1,
        segs.last().data.len() == 0,
        pointer_live(segs, p, k),
    ensures
        p.id != segs.last().id,
{
    if p.id == segs.last().id {
        lemma_find_seg_at(segs, segs.len() - 1);
    }
}

/// One record speaks of one key: two keys cannot share a live pointer.
proof fn lemma_pointer_key_unique(segs: Seq<SegmentView>, p: LogPointer, k1: Seq<char>, k2: Seq<char>)
    requires
        pointer_live(segs, p, k1),
        pointer_live(segs, p, k2),
    ensures
        k1 == k2,
{
}

/// A run holding a segment with the id yields something for it.
proof fn lemma_find_seg_some_of_member(segs: Seq<SegmentView>, j: int)
    requires
        0 <= j < segs.len(),
    ensures
        find_seg(segs, segs[j].id) is Some,
    decreases segs.len(),
{
    if segs[0].id != segs[j].id {
        lemma_find_seg_some_of_member(segs.drop_first(), j - 1);
    }
}

/// With pairwise-distinct mark ids, one id carries one action.
proof fn lemma_mark_unique(
    marks: Seq<(u64, CompactionAction)>,
    id: u64,
    a1: CompactionAction,
    a2: CompactionAction,
)
    requires
        forall|i: int, j: int|
            0 <= i < j < marks.len() ==> (#[trigger] marks[i]).0 != (#[trigger] marks[j]).0,
        mark_is(marks, id, a1),
        mark_is(marks, id, a2),
    ensures
        a1 == a2,
{
    let i1 = choose|i: int| 0 <= i < marks.len() && marks[i] == (id, a1);
    let i2 = choose|i: int| 0 <= i < marks.len() && marks[i] == (id, a2);
    if i1 != i2 {
        assert(marks[i1].0 != marks[i2].0);
    }
}

/// After marking one more known, non-active id, every mark still names a
/// known id other than the active one.
proof fn lemma_marking_invariants(
    mb: Seq<(u64, CompactionAction)>,
    ma: Seq<(u64, CompactionAction)>,
    ids: Seq<u64>,
    id: u64,
    active: u64,
    t: int,
)
    requires
        forall|a: int| 0 <= a < mb.len() ==> ids.contains((#[trigger] mb[a]).0),
        forall|a: int| 0 <= a < mb.len() ==> (#[trigger] mb[a]).0 != active,
        forall|id2: u64| has_mark(ma, id2) <==> (id2 == id || has_mark(mb, id2)),
        0 <= t < ids.len(),
        ids[t] == id,
        id != active,
    ensures
        forall|a: int| 0 <= a < ma.len() ==> ids.contains((#[trigger] ma[a]).0),
        forall|a: int| 0 <= a < ma.len() ==> (#[trigger] ma[a]).0 != active,
{
    assert forall|a: int| 0 <= a < ma.len() implies ids.contains((#[trigger] ma[a]).0) && ma[a].0
        != active by {
        let id2 = ma[a].0;
        assert(has_mark(ma, id2));
        if id2 == id {
            assert(ids[t] == id);
        } else {
            assert(has_mark(mb, id2));
            let b = choose|b: int| 0 <= b < mb.len() && (#[trigger] mb[b]).0 == id2;
            assert(ids.contains(mb[b].0));
        }
    }
}

/// How many of the listed keys are live in the segment with the given id.
pub open spec fn live_count(db: Map<Seq<char>, LogPointer>, keys: Seq<Seq<char>>, id: u64) -> nat
    decreases keys.len(),
{
    if keys.len() == 0 {
        0
    } else {
        live_count(db, keys.drop_last(), id) + (if db.dom().contains(keys.last()) && db[keys.last()].id
            == id {
            1nat
        } else {
            0nat
        })
    }
}

/// The busiest live-record count among the given segment ids.
pub open spec fn max_live_count(
    db: Map<Seq<char>, LogPointer>,
    keys: Seq<Seq<char>>,
    ids: Seq<u64>,
) -> nat
    decreases ids.len(),
{
    if ids.len() == 0 {
        0
    } else {
        let rest = max_live_count(db, keys, ids.drop_last());
        if live_count(db, keys, ids.last()) > rest {
            live_count(db, keys, ids.last())
        } else {
            rest
        }
    }
}

/// The denominator of the density rule: the busiest count, at least one.
pub open spec fn busiest_count(
    db: Map<Seq<char>, LogPointer>,
    keys: Seq<Seq<char>>,
    ids: Seq<u64>,
) -> nat {
    let m = max_live_count(db, keys, ids);
    if m == 0 {
        1nat
    } else {
        m
    }
}

/// Counting one more key adds one exactly when that key is live there.
proof fn lemma_live_count_take(db: Map<Seq<char>, LogPointer>, keys: Seq<Seq<char>>, i: int, id: u64)
    requires
        0 <= i < keys.len(),
    ensures
        live_count(db, keys.take(i + 1), id) == live_count(db, keys.take(i), id) + (
        if db.dom().contains(keys[i]) && db[keys[i]].id == id {
            1nat
        } else {
            0nat
        }),
{
    assert(keys.take(i + 1).drop_last() =~= keys.take(i));
    assert(keys.take(i + 1).last() == keys[i]);
}

/// A bound on every id's count bounds the busiest count.
proof fn lemma_max_live_count_ub(
    db: Map<Seq<char>, LogPointer>,
    keys: Seq<Seq<char>>,
    ids: Seq<u64>,
    bound: nat,
)
    requires
        forall|t: int| 0 <= t < ids.len() ==> live_count(db, keys, #[trigger] ids[t]) <= bound,
    ensures
        max_live_count(db, keys, ids) <= bound,
    decreases ids.len(),
{
    if ids.len() > 0 {
        assert(live_count(db, keys, ids[ids.len() - 1]) <= bound);
        assert(forall|t: int|
            0 <= t < ids.drop_last().len() ==> live_count(db, keys, #[trigger] ids.drop_last()[t])
                <= bound);
        lemma_max_live_count_ub(db, keys, ids.drop_last(), bound);
    }
}

/// Every listed id's count is at most the busiest count.
proof fn lemma_max_live_count_lb(
    db: Map<Seq<char>, LogPointer>,
    keys: Seq<Seq<char>>,
    ids: Seq<u64>,
    t: int,
)
    requires
        0 <= t < ids.len(),
    ensures
        live_count(db, keys, ids[t]) <= max_live_count(db, keys, ids),
    decreases ids.len(),
{
    if t < ids.len() - 1 {
        lemma_max_live_count_lb(db, keys, ids.drop_last(), t);
        assert(ids.drop_last()[t] == ids[t]);
    }
}

/// A key live in the segment makes its count positive.
proof fn lemma_live_count_pos(
    db: Map<Seq<char>, LogPointer>,
    keys: Seq<Seq<char>>,
    id: u64,
    w: int,
)
    requires
        0 <= w < keys.len(),
        db.dom().contains(keys[w]),
        db[keys[w]].id == id,
    ensures
        live_count(db, keys, id) >= 1,
    decreases keys.len(),
{
    if w < keys.len() - 1 {
        lemma_live_count_pos(db, keys.drop_last(), id, w);
    }
}

/// One marking decision disturbs no other id's marks: decisions already
/// made stay made, ids not yet weighed keep their entry marks.
proof fn lemma_marking_rule_step(
    mb: Seq<(u64, CompactionAction)>,
    ma: Seq<(u64, CompactionAction)>,
    ids0: Seq<u64>,
    db: Map<Seq<char>, LogPointer>,
    kk: Seq<Seq<char>>,
    marks_entry: Seq<(u64, CompactionAction)>,
    id: u64,
    active: u64,
    m1: nat,
    t: int,
)
    requires
        0 <= t < ids0.len(),
        ids0[t] == id,
        forall|a: int, b: int| 0 <= a < b < ids0.len() ==> ids0[a] < ids0[b],
        forall|id2: u64, act: CompactionAction|
            id2 != id ==> (mark_is(ma, id2, act) <==> mark_is(mb, id2, act)),
        forall|t2: int|
            #![trigger ids0[t2]]
            0 <= t2 < t ==> {
                let id2 = ids0[t2];
                let c = live_count(db, kk, id2);
                &&& (c == 0 && id2 != active ==> mark_is(mb, id2, CompactionAction::Remove))
                &&& (c >= 1 && c * 100 / m1 <= LOG_COMPACTION_MAX_KEY_DENSITY_PERCENT
                    ==> mark_is(mb, id2, CompactionAction::Migrate))
                &&& (((c == 0 && id2 == active) || (c >= 1 && c * 100 / m1
                    > LOG_COMPACTION_MAX_KEY_DENSITY_PERCENT)) ==> (forall|act: CompactionAction|
                    #![trigger mark_is(mb, id2, act)]
                    mark_is(mb, id2, act) <==> mark_is(marks_entry, id2, act)))
            },
        forall|t2: int, act: CompactionAction|
            #![trigger mark_is(mb, ids0[t2], act)]
            t <= t2 < ids0.len() ==> (mark_is(mb, ids0[t2], act) <==> mark_is(
                marks_entry,
                ids0[t2],
                act,
            )),
    ensures
        forall|t2: int|
            #![trigger ids0[t2]]
            0 <= t2 < t ==> {
                let id2 = ids0[t2];
                let c = live_count(db, kk, id2);
                &&& (c == 0 && id2 != active ==> mark_is(ma, id2, CompactionAction::Remove))
                &&& (c >= 1 && c * 100 / m1 <= LOG_COMPACTION_MAX_KEY_DENSITY_PERCENT
                    ==> mark_is(ma, id2, CompactionAction::Migrate))
                &&& (((c == 0 && id2 == active) || (c >= 1 && c * 100 / m1
                    > LOG_COMPACTION_MAX_KEY_DENSITY_PERCENT)) ==> (forall|act: CompactionAction|
                    #![trigger mark_is(ma, id2, act)]
                    mark_is(ma, id2, act) <==> mark_is(marks_entry, id2, act)))
            },
        forall|t2: int, act: CompactionAction|
            #![trigger mark_is(ma, ids0[t2], act)]
            t + 1 <= t2 < ids0.len() ==> (mark_is(ma, ids0[t2], act) <==> mark_is(
                marks_entry,
                ids0[t2],
                act,
            )),
{
    assert forall|t2: int| #![trigger ids0[t2]] 0 <= t2 < t implies {
        let id2 = ids0[t2];
        let c = live_count(db, kk, id2);
        &&& (c == 0 && id2 != active ==> mark_is(ma, id2, CompactionAction::Remove))
        &&& (c >= 1 && c * 100 / m1 <= LOG_COMPACTION_MAX_KEY_DENSITY_PERCENT ==> mark_is(
            ma,
            id2,
            CompactionAction::Migrate,
        ))
        &&& (((c == 0 && id2 == active) || (c >= 1 && c * 100 / m1
            > LOG_COMPACTION_MAX_KEY_DENSITY_PERCENT)) ==> (forall|act: CompactionAction|
            #![trigger mark_is(ma, id2, act)]
            mark_is(ma, id2, act) <==> mark_is(marks_entry, id2, act)))
    } by {
        let id2 = ids0[t2];
        assert(ids0[t2] < ids0[t]);
        assert(id2 != id);
        let c = live_count(db, kk, id2);
        if c == 0 && id2 != active {
            assert(mark_is(mb, id2, CompactionAction::Remove));
        }
        if c >= 1 && c * 100 / m1 <= LOG_COMPACTION_MAX_KEY_DENSITY_PERCENT {
            assert(mark_is(mb, id2, CompactionAction::Migrate));
        }
        if (c == 0 && id2 == active) || (c >= 1 && c * 100 / m1
            > LOG_COMPACTION_MAX_KEY_DENSITY_PERCENT) {
            assert forall|act: CompactionAction|
                #![trigger mark_is(ma, id2, act)]
                mark_is(ma, id2, act) <==> mark_is(marks_entry, id2, act) by {
                assert(mark_is(mb, id2, act) <==> mark_is(marks_entry, id2, act));
            }
        }
    }
    assert forall|t2: int, act: CompactionAction|
        #![trigger mark_is(ma, ids0[t2], act)]
        t + 1 <= t2 < ids0.len() implies (mark_is(ma, ids0[t2], act) <==> mark_is(
        marks_entry,
        ids0[t2],
        act,
    )) by {
        assert(ids0[t] < ids0[t2]);
        assert(ids0[t2] != id);
        assert(mark_is(mb, ids0[t2], act) <==> mark_is(marks_entry, ids0[t2], act));
    }
}

/// Whether some live-record count names the given segment id.
pub open spec fn has_count(counts: Seq<(u64, u64)>, id: u64) -> bool {
    exists|i: int| 0 <= i < counts.len() && (#[trigger] counts[i]).0 == id
}

impl LogIndex {
    /// The live records still waiting to be migrated.
    pub closed spec fn migration(&self) -> Seq<LogPointer> {
        self.metadata.eligible_for_compaction.migration_list@
    }

    /// Sorts the segments into the compaction plan.  A known id with no
    /// live records that is not active is marked `Remove`; one whose
    /// live-record count is at most [`LOG_COMPACTION_MAX_KEY_DENSITY_PERCENT`]
    /// percent of the busiest segment's count is marked `Migrate`, and its
    /// live pointers join the migration list.
    fn identify_logs_that_can_be_compacted(&mut self)
        requires
            old(self).base_inv(),
            old(self).segs().last().data.len() == 0,
            old(self).migration().len() == 0,
            forall|i: int|
                0 <= i < old(self).marks().len() ==> find_seg(
                    old(self).segs(),
                    (#[trigger] old(self).marks()[i]).0,
                ) is None,
        ensures
            final(self).base_inv(),
            final(self).database == old(self).database,
            final(self).segments == old(self).segments,
            final(self).metadata.active_log_id == old(self).metadata.active_log_id,
            final(self).metadata.size == old(self).metadata.size,
            final(self).metadata.ids == old(self).metadata.ids,
            final(self).metadata.state == old(self).metadata.state,
            final(self).clean == old(self).clean,
            forall|i: int|
                0 <= i < final(self).marks().len() ==> (#[trigger] final(self).marks()[i]).0
                    != final(self).metadata.active_log_id,
            forall|k: Seq<char>|
                #[trigger] final(self).database@.dom().contains(k) ==> !mark_is(
                    final(self).marks(),
                    final(self).database@[k].id,
                    CompactionAction::Remove,
                ),
            forall|j: int|
                0 <= j < final(self).migration().len()
                    ==> final(self).database@.dom().contains(
                    record_key(final(self).segs(), #[trigger] final(self).migration()[j]),
                ) && final(self).database@[record_key(
                    final(self).segs(),
                    final(self).migration()[j],
                )] == final(self).migration()[j] && mark_is(
                    final(self).marks(),
                    final(self).migration()[j].id,
                    CompactionAction::Migrate,
                ),
            forall|k: Seq<char>|
                #[trigger] final(self).database@.dom().contains(k) && mark_is(
                    final(self).marks(),
                    final(self).database@[k].id,
                    CompactionAction::Migrate,
                ) ==> final(self).migration().contains(final(self).database@[k]),
            final(self).migration().no_duplicates(),
            // the classification rule itself: a known id with no live
            // records that is not active is marked for removal; one whose
            // live-record count is within the density threshold of the
            // busiest segment is marked for migration; the rest keep
            // whatever mark they had
            forall|t: int|
                #![trigger old(self).metadata.ids@[t]]
                0 <= t < old(self).metadata.ids@.len() ==> {
                    let id = old(self).metadata.ids@[t];
                    let c = live_count(old(self).database@, old(self).database.key_seq(), id);
                    let m1 = busiest_count(
                        old(self).database@,
                        old(self).database.key_seq(),
                        old(self).metadata.ids@,
                    );
                    &&& (c == 0 && id != old(self).metadata.active_log_id ==> mark_is(
                        final(self).marks(),
                        id,
                        CompactionAction::Remove,
                    ))
                    &&& (c >= 1 && c * 100 / m1 <= LOG_COMPACTION_MAX_KEY_DENSITY_PERCENT
                        ==> mark_is(final(self).marks(), id, CompactionAction::Migrate))
                    &&& (((c == 0 && id == old(self).metadata.active_log_id) || (c >= 1 && c * 100
                        / m1 > LOG_COMPACTION_MAX_KEY_DENSITY_PERCENT)) ==> (forall|
                        act: CompactionAction,
                    |
                        #![trigger mark_is(final(self).marks(), id, act)]
                        mark_is(final(self).marks(), id, act) <==> mark_is(
                            old(self).marks(),
                            id,
                            act,
                        )))
                },
    {
        let ghost segs = self.segs();
        let ghost db = self.database@;
        let ghost active = self.metadata.active_log_id;
        let ghost kk = self.database.key_seq();
        let ghost ids0 = self.metadata.ids@;
        proof {
            assert forall|k: Seq<char>| #[trigger] db.dom().contains(k) implies db[k].id
                != active by {
                assert(pointer_live(segs, db[k], k));
                lemma_no_pointer_into_empty_last(segs, db[k], k);
            }
        }
        // count the live records each segment still holds; remember for each
        // counted id one live key of that segment
        let ghost mut wit: Map<u64, Seq<char>> = Map::empty();
        let mut counts: Vec<(u64, u64)> = Vec::new();
        let n = self.database.key_count();
        let mut i: usize = 0;
        while i < n
            invariant
                i <= n,
                n == self.database.key_seq().len(),
                self.database.wf(),
                db == self.database@,
                kk == self.database.key_seq(),
                forall|a: int|
                    0 <= a < counts@.len() ==> db.dom().contains(
                        wit[(#[trigger] counts@[a]).0],
                    ) && db[wit[counts@[a].0]].id == counts@[a].0,
                forall|j: int|
                    0 <= j < i ==> has_count(counts@, db[#[trigger] self.database.key_seq()[j]].id),
                forall|a: int| 0 <= a < counts@.len() ==> (#[trigger] counts@[a]).1 <= i,
                forall|a: int, b: int|
                    0 <= a < b < counts@.len() ==> (#[trigger] counts@[a]).0 != (
                    #[trigger] counts@[b]).0,
                forall|a: int|
                    0 <= a < counts@.len() ==> (#[trigger] counts@[a]).1 == live_count(
                        db,
                        kk.take(i as int),
                        counts@[a].0,
                    ),
                forall|id2: u64|
                    !(#[trigger] has_count(counts@, id2)) ==> live_count(db, kk.take(i as int), id2)
                        == 0,
            decreases n - i,
        {
            let key = self.database.key_at(i);
            proof {
                assert(db.dom().contains(self.database.key_seq()[i as int]));
            }
            let p = match self.database.get(key) {
                Some(p) => p,
                None => {
                    proof {
                        assert(false);
                    }
                    LogPointer { id: 0, offset: 0 }
                },
            };
            proof {
                assert(db.dom().contains(kk[i as int]) && db[kk[i as int]].id == p.id);
            }
            let mut j: usize = 0;
            let mut found = false;
            while j < counts.len() && !found
                invariant
                    j <= counts@.len(),
                    !found ==> forall|a: int| 0 <= a < j ==> (#[trigger] counts@[a]).0 != p.id,
                    found ==> j >= 1 && j - 1 < counts@.len() && counts@[j - 1].0 == p.id,
                decreases counts@.len() - j + (if found { 0int } else { 1int }),
            {
                if counts[j].0 == p.id {
                    found = true;
                }
                j += 1;
            }
            let ghost cb = counts@;
            if found {
                let c = counts[j - 1].1;
                counts[j - 1] = (p.id, c + 1);
                proof {
                    assert(counts@ == cb.update(j as int - 1, (p.id, (c + 1) as u64)));
                    assert forall|a: int| 0 <= a < counts@.len() implies db.dom().contains(
                        wit[(#[trigger] counts@[a]).0],
                    ) && db[wit[counts@[a].0]].id == counts@[a].0 by {
                        if a == j - 1 {
                            assert(cb[a].0 == p.id);
                            assert(counts@[a].0 == cb[a].0);
                        } else {
                            assert(counts@[a] == cb[a]);
                        }
                    }
                    assert forall|j5: int| 0 <= j5 < i + 1 implies has_count(
                        counts@,
                        db[#[trigger] self.database.key_seq()[j5]].id,
                    ) by {
                        if j5 < i {
                            let a = choose|a: int|
                                0 <= a < cb.len() && (#[trigger] cb[a]).0 == db[self.database.key_seq()[j5]].id;
                            if a == j - 1 {
                                assert(counts@[a].0 == p.id && cb[a].0 == p.id);
                            } else {
                                assert(counts@[a] == cb[a]);
                            }
                        } else {
                            assert(counts@[j - 1].0 == p.id);
                        }
                    }
                    // the moved entry keeps counting exactly
                    assert forall|a: int| 0 <= a < counts@.len() implies (#[trigger] counts@[a]).1
                        == live_count(db, kk.take(i + 1), counts@[a].0) by {
                        lemma_live_count_take(db, kk, i as int, counts@[a].0);
                        if a == j - 1 {
                            assert(cb[a].1 == live_count(db, kk.take(i as int), p.id));
                        } else {
                            assert(counts@[a] == cb[a]);
                            assert(cb[a].0 != p.id);
                        }
                    }
                    assert forall|id2: u64| !(#[trigger] has_count(counts@, id2)) implies
                        live_count(db, kk.take(i + 1), id2) == 0 by {
                        lemma_live_count_take(db, kk, i as int, id2);
                        assert forall|a: int| 0 <= a < cb.len() implies (#[trigger] cb[a]).0
                            != id2 by {
                            if cb[a].0 == id2 {
                                if a == j - 1 {
                                    assert(counts@[a].0 == p.id);
                                } else {
                                    assert(counts@[a].0 == id2);
                                }
                            }
                        }
                        assert(!has_count(cb, id2));
                        assert(id2 != p.id);
                    }
                }
            } else {
                counts.push((p.id, 1));
                proof {
                    assert(counts@ == cb.push((p.id, 1)));
                    let kv5 = self.database.key_seq()[i as int];
                    wit = wit.insert(p.id, kv5);
                    assert(!has_count(cb, p.id));
                    assert(live_count(db, kk.take(i as int), p.id) == 0);
                    assert forall|a: int| 0 <= a < counts@.len() implies db.dom().contains(
                        wit[(#[trigger] counts@[a]).0],
                    ) && db[wit[counts@[a].0]].id == counts@[a].0 by {
                        if a == cb.len() {
                            assert(wit[p.id] == kv5);
                            assert(db.dom().contains(kv5));
                            assert(db[kv5].id == p.id);
                        } else {
                            assert(counts@[a] == cb[a]);
                            assert(cb[a].0 != p.id);
                        }
                    }
                    assert forall|j5: int| 0 <= j5 < i + 1 implies has_count(
                        counts@,
                        db[#[trigger] self.database.key_seq()[j5]].id,
                    ) by {
                        if j5 < i {
                            let a = choose|a: int|
                                0 <= a < cb.len() && (#[trigger] cb[a]).0 == db[self.database.key_seq()[j5]].id;
                            assert(counts@[a] == cb[a]);
                        } else {
                            assert(counts@[cb.len() as int].0 == p.id);
                        }
                    }
                    assert forall|a: int| 0 <= a < counts@.len() implies (#[trigger] counts@[a]).1
                        == live_count(db, kk.take(i + 1), counts@[a].0) by {
                        lemma_live_count_take(db, kk, i as int, counts@[a].0);
                        if a == cb.len() {
                            assert(counts@[a] == (p.id, 1u64));
                        } else {
                            assert(counts@[a] == cb[a]);
                            assert(cb[a].0 != p.id);
                        }
                    }
                    assert forall|id2: u64| !(#[trigger] has_count(counts@, id2)) implies
                        live_count(db, kk.take(i + 1), id2) == 0 by {
                        lemma_live_count_take(db, kk, i as int, id2);
                        assert forall|a: int| 0 <= a < cb.len() implies (#[trigger] cb[a]).0
                            != id2 by {
                            assert(counts@[a].0 == cb[a].0);
                        }
                        assert(!has_count(cb, id2));
                        assert(counts@[cb.len() as int].0 == p.id);
                        assert(id2 != p.id);
                    }
                }
            }
            i += 1;
        }
        proof {
            assert(kk.take(n as int) =~= kk);
            assert forall|k: Seq<char>| #[trigger] db.dom().contains(k) implies has_count(
                counts@,
                db[k].id,
            ) by {
                assert(self.database.key_seq().contains(k));
                let j5 = choose|j5: int|
                    0 <= j5 < self.database.key_seq().len() && self.database.key_seq()[j5] == k;
                assert(has_count(counts@, db[self.database.key_seq()[j5]].id));
            }
        }
        // the busiest segment's count, at least one
        let mut max_count: u64 = 1;
        let ghost mut best: int = 0;
        let mut j: usize = 0;
        while j < counts.len()
            invariant
                max_count >= 1,
                j <= counts@.len(),
                forall|a: int| 0 <= a < j ==> (#[trigger] counts@[a]).1 <= max_count,
                max_count == 1 || (0 <= best < counts@.len() && counts@[best].1 == max_count),
                db == self.database@,
                kk == self.database.key_seq(),
                forall|a: int|
                    0 <= a < counts@.len() ==> db.dom().contains(
                        wit[(#[trigger] counts@[a]).0],
                    ) && db[wit[counts@[a].0]].id == counts@[a].0,
                forall|a: int|
                    0 <= a < counts@.len() ==> (#[trigger] counts@[a]).1 == live_count(
                        db,
                        kk,
                        counts@[a].0,
                    ),
                forall|id2: u64|
                    !(#[trigger] has_count(counts@, id2)) ==> live_count(db, kk, id2) == 0,
                forall|k: Seq<char>| #[trigger] db.dom().contains(k) ==> has_count(counts@, db[k].id),
            decreases counts@.len() - j,
        {
            if counts[j].1 > max_count {
                max_count = counts[j].1;
                proof {
                    best = j as int;
                }
            }
            j += 1;
        }
        proof {
            // the scanned maximum is the busiest count of the density rule
            assert forall|t: int| 0 <= t < ids0.len() implies live_count(db, kk, #[trigger] ids0[t])
                <= max_count by {
                let id = ids0[t];
                if has_count(counts@, id) {
                    let a = choose|a: int|
                        0 <= a < counts@.len() && (#[trigger] counts@[a]).0 == id;
                    assert(counts@[a].1 == live_count(db, kk, id));
                    assert(counts@[a].1 <= max_count);
                } else {
                    assert(live_count(db, kk, id) == 0);
                }
            }
            lemma_max_live_count_ub(db, kk, ids0, max_count as nat);
            if max_count > 1 {
                assert(counts@[best].1 == max_count);
                let id = counts@[best].0;
                assert(live_count(db, kk, id) == max_count);
                assert(db.dom().contains(wit[id]) && db[wit[id]].id == id);
                assert(pointer_live(segs, db[wit[id]], wit[id]));
                lemma_find_seg_member(segs, id);
                let s = find_seg(segs, id)->Some_0;
                let si = choose|si: int| 0 <= si < segs.len() && segs[si] == s;
                assert(old(self).metadata.ids@.contains(old(self).segs()[si].id));
                assert(ids0.contains(id));
                let t = choose|t: int| 0 <= t < ids0.len() && ids0[t] == id;
                lemma_max_live_count_lb(db, kk, ids0, t);
            }
            assert(max_count as nat == busiest_count(db, kk, ids0));
        }
        proof {
            lemma_find_seg_some_of_member(segs, segs.len() - 1);
            assert forall|a: int| 0 <= a < self.marks().len() implies (#[trigger] self.marks()[a]).0
                != active by {
                if self.marks()[a].0 == active {
                    assert(find_seg(segs, self.marks()[a].0) is None);
                }
            }
        }
        // mark every known id
        let ghost marks_entry = self.marks();
        let total_ids = self.metadata.ids.len();
        let mut t: usize = 0;
        while t < total_ids
            invariant
                t <= total_ids,
                total_ids == self.metadata.ids@.len(),
                self.database == old(self).database,
                self.segments == old(self).segments,
                self.metadata.active_log_id == old(self).metadata.active_log_id,
                self.metadata.size == old(self).metadata.size,
                self.metadata.ids == old(self).metadata.ids,
                self.metadata.state == old(self).metadata.state,
                self.metadata.eligible_for_compaction.migration_list
                    == old(self).metadata.eligible_for_compaction.migration_list,
                self.clean == old(self).clean,
                db == self.database@,
                self.database.wf(),
                segs == self.segs(),
                active == self.metadata.active_log_id,
                kk == self.database.key_seq(),
                ids0 == self.metadata.ids@,
                marks_entry == old(self).marks(),
                forall|a: int, b: int| 0 <= a < b < ids0.len() ==> ids0[a] < ids0[b],
                forall|a: int, b: int|
                    0 <= a < b < self.marks().len() ==> (#[trigger] self.marks()[a]).0 != (
                    #[trigger] self.marks()[b]).0,
                forall|a: int|
                    0 <= a < self.marks().len() ==> self.metadata.ids@.contains(
                        (#[trigger] self.marks()[a]).0,
                    ),
                forall|a: int| 0 <= a < self.marks().len() ==> (#[trigger] self.marks()[a]).0 != active,
                forall|k: Seq<char>| #[trigger] db.dom().contains(k) ==> db[k].id != active,
                max_count >= 1,
                max_count as nat == busiest_count(db, kk, ids0),
                forall|k: Seq<char>|
                    #[trigger] db.dom().contains(k) ==> !mark_is(
                        self.marks(),
                        db[k].id,
                        CompactionAction::Remove,
                    ),
                forall|k: Seq<char>| #[trigger] db.dom().contains(k) ==> has_count(counts@, db[k].id),
                forall|a: int|
                    0 <= a < counts@.len() ==> db.dom().contains(
                        wit[(#[trigger] counts@[a]).0],
                    ) && db[wit[counts@[a].0]].id == counts@[a].0,
                forall|a: int|
                    0 <= a < counts@.len() ==> (#[trigger] counts@[a]).1 == live_count(
                        db,
                        kk,
                        counts@[a].0,
                    ),
                forall|id2: u64|
                    !(#[trigger] has_count(counts@, id2)) ==> live_count(db, kk, id2) == 0,
                // what marking has decided so far
                forall|t2: int|
                    #![trigger ids0[t2]]
                    0 <= t2 < t ==> {
                        let id = ids0[t2];
                        let c = live_count(db, kk, id);
                        &&& (c == 0 && id != active ==> mark_is(
                            self.marks(),
                            id,
                            CompactionAction::Remove,
                        ))
                        &&& (c >= 1 && c * 100 / (max_count as nat)
                            <= LOG_COMPACTION_MAX_KEY_DENSITY_PERCENT ==> mark_is(
                            self.marks(),
                            id,
                            CompactionAction::Migrate,
                        ))
                        &&& (((c == 0 && id == active) || (c >= 1 && c * 100 / (max_count as nat)
                            > LOG_COMPACTION_MAX_KEY_DENSITY_PERCENT)) ==> (forall|
                            act: CompactionAction,
                        |
                            #![trigger mark_is(self.marks(), id, act)]
                            mark_is(self.marks(), id, act) <==> mark_is(marks_entry, id, act)))
                    },
                // ids not yet weighed keep their entry marks
                forall|t2: int, act: CompactionAction|
                    #![trigger mark_is(self.marks(), ids0[t2], act)]
                    t <= t2 < total_ids ==> (mark_is(self.marks(), ids0[t2], act) <==> mark_is(
                        marks_entry,
                        ids0[t2],
                        act,
                    )),
            decreases total_ids - t,
        {
            let id = self.metadata.ids[t];
            let mut j2: usize = 0;
            let mut count: u64 = 0;
            let mut present = false;
            while j2 < counts.len() && !present
                invariant
                    j2 <= counts@.len(),
                    !present ==> forall|a: int| 0 <= a < j2 ==> (#[trigger] counts@[a]).0 != id,
                    present ==> j2 >= 1 && j2 - 1 < counts@.len() && counts@[j2 - 1].0 == id
                        && count == counts@[j2 - 1].1,
                    forall|a: int|
                        0 <= a < counts@.len() ==> db.dom().contains(
                            wit[(#[trigger] counts@[a]).0],
                        ) && db[wit[counts@[a].0]].id == counts@[a].0,
                    forall|a: int|
                        0 <= a < counts@.len() ==> (#[trigger] counts@[a]).1 == live_count(
                            db,
                            kk,
                            counts@[a].0,
                        ),
                decreases counts@.len() - j2 + (if present { 0int } else { 1int }),
            {
                if counts[j2].0 == id {
                    present = true;
                    count = counts[j2].1;
                }
                j2 += 1;
            }
            let ghost c = live_count(db, kk, id);
            proof {
                if present {
                    assert(counts@[j2 - 1].0 == id);
                    assert(count == c);
                    let wk = wit[id];
                    assert(db.dom().contains(wk) && db[wk].id == id);
                    assert(self.database@.dom().contains(wk));
                    assert(self.database.key_seq().contains(wk));
                    let w = choose|w: int| 0 <= w < kk.len() && kk[w] == wk;
                    lemma_live_count_pos(db, kk, id, w);
                    assert(c >= 1);
                } else {
                    assert(!has_count(counts@, id));
                    assert(c == 0);
                }
            }
            let ghost mb = self.marks();
            if present {
                let pct = (count as u128) * 100 / (max_count as u128);
                proof {
                    assert((count as u128) * 100 == (c * 100) as u128);
                    assert(pct as nat == c * 100 / (max_count as nat));
                }
                if pct <= LOG_COMPACTION_MAX_KEY_DENSITY_PERCENT as u128 {
                    proof {
                        let k = wit[id];
                        assert(db.dom().contains(k) && db[k].id == id);
                        assert(db[k].id != active);
                        assert(id != active);
                        assert(self.metadata.ids@[t as int] == id);
                    }
                    self.metadata.eligible_for_compaction.set_mark(id, CompactionAction::Migrate);
                    proof {
                        lemma_marking_invariants(mb, self.marks(), self.metadata.ids@, id, active, t as int);
                        assert forall|k: Seq<char>| #[trigger] db.dom().contains(k) implies !mark_is(
                            self.marks(),
                            db[k].id,
                            CompactionAction::Remove,
                        ) by {
                            if mark_is(self.marks(), db[k].id, CompactionAction::Remove) {
                                if db[k].id == id {
                                    lemma_mark_unique(
                                        self.marks(),
                                        id,
                                        CompactionAction::Migrate,
                                        CompactionAction::Remove,
                                    );
                                } else {
                                    assert(mark_is(mb, db[k].id, CompactionAction::Remove));
                                }
                            }
                        }
                        lemma_marking_rule_step(mb, self.marks(), ids0, db, kk, marks_entry, id, active, max_count as nat, t as int);
                    }
                } else {
                    proof {
                        assert(c * 100 / (max_count as nat) > LOG_COMPACTION_MAX_KEY_DENSITY_PERCENT);
                        assert forall|act: CompactionAction|
                            #![trigger mark_is(self.marks(), id, act)]
                            mark_is(self.marks(), id, act) <==> mark_is(marks_entry, id, act) by {
                            assert(ids0[t as int] == id);
                        }
                    }
                }
            } else if id != self.metadata.active_log_id {
                proof {
                    assert(self.metadata.ids@[t as int] == id);
                }
                self.metadata.eligible_for_compaction.set_mark(id, CompactionAction::Remove);
                proof {
                    lemma_marking_invariants(mb, self.marks(), self.metadata.ids@, id, active, t as int);
                    assert forall|k: Seq<char>| #[trigger] db.dom().contains(k) implies !mark_is(
                        self.marks(),
                        db[k].id,
                        CompactionAction::Remove,
                    ) by {
                        if mark_is(self.marks(), db[k].id, CompactionAction::Remove) {
                            if db[k].id == id {
                                assert(has_count(counts@, db[k].id));
                                let a = choose|a: int|
                                    0 <= a < counts@.len() && (#[trigger] counts@[a]).0 == id;
                                assert(counts@[a].0 != id);
                            } else {
                                assert(mark_is(mb, db[k].id, CompactionAction::Remove));
                            }
                        }
                    }
                    lemma_marking_rule_step(mb, self.marks(), ids0, db, kk, marks_entry, id, active, max_count as nat, t as int);
                }
            } else {
                proof {
                    assert forall|act: CompactionAction|
                        #![trigger mark_is(self.marks(), id, act)]
                        mark_is(self.marks(), id, act) <==> mark_is(marks_entry, id, act) by {
                        assert(ids0[t as int] == id);
                    }
                }
            }
            t += 1;
        }
        proof {
            assert forall|t2: int|
                #![trigger old(self).metadata.ids@[t2]]
                0 <= t2 < old(self).metadata.ids@.len() implies {
                let id = old(self).metadata.ids@[t2];
                let c = live_count(old(self).database@, old(self).database.key_seq(), id);
                let m1 = busiest_count(
                    old(self).database@,
                    old(self).database.key_seq(),
                    old(self).metadata.ids@,
                );
                &&& (c == 0 && id != old(self).metadata.active_log_id ==> mark_is(
                    self.marks(),
                    id,
                    CompactionAction::Remove,
                ))
                &&& (c >= 1 && c * 100 / m1 <= LOG_COMPACTION_MAX_KEY_DENSITY_PERCENT ==> mark_is(
                    self.marks(),
                    id,
                    CompactionAction::Migrate,
                ))
                &&& (((c == 0 && id == old(self).metadata.active_log_id) || (c >= 1 && c * 100 / m1
                    > LOG_COMPACTION_MAX_KEY_DENSITY_PERCENT)) ==> (forall|act: CompactionAction|
                    #![trigger mark_is(self.marks(), id, act)]
                    mark_is(self.marks(), id, act) <==> mark_is(old(self).marks(), id, act)))
            } by {
                assert(ids0[t2] == old(self).metadata.ids@[t2]);
                assert(live_count(db, kk, ids0[t2]) == live_count(
                    old(self).database@,
                    old(self).database.key_seq(),
                    ids0[t2],
                ));
            }
        }
        // gather the live pointers of every segment marked for migration,
        // remembering for each pointer the live key that owns it
        let ghost marks = self.marks();
        let mut i3: usize = 0;
        while i3 < n
            invariant
                i3 <= n,
                n == self.database.key_seq().len(),
                self.database == old(self).database,
                self.segments == old(self).segments,
                self.metadata.active_log_id == old(self).metadata.active_log_id,
                self.metadata.size == old(self).metadata.size,
                self.metadata.ids == old(self).metadata.ids,
                self.metadata.state == old(self).metadata.state,
                self.metadata.eligible_for_compaction.ids@ == marks,
                self.clean == old(self).clean,
                db == self.database@,
                segs == self.segs(),
                self.database.wf(),
                forall|k: Seq<char>|
                    #[trigger] db.dom().contains(k) ==> pointer_live(segs, db[k], k),
                forall|a: int, b: int|
                    0 <= a < b < marks.len() ==> (#[trigger] marks[a]).0 != (
                    #[trigger] marks[b]).0,
                self.migration().no_duplicates(),
                forall|idx: int|
                    0 <= idx < self.migration().len() ==> exists|j4: int|
                        0 <= j4 < i3 && #[trigger] self.migration()[idx] == db[self.database.key_seq()[j4]],
                forall|idx: int|
                    0 <= idx < self.migration().len() ==> db.dom().contains(
                        record_key(segs, #[trigger] self.migration()[idx]),
                    ) && db[record_key(segs, self.migration()[idx])] == self.migration()[idx]
                        && mark_is(marks, self.migration()[idx].id, CompactionAction::Migrate),
                forall|j4: int|
                    0 <= j4 < i3 && mark_is(
                        marks,
                        db[#[trigger] self.database.key_seq()[j4]].id,
                        CompactionAction::Migrate,
                    ) ==> self.migration().contains(db[self.database.key_seq()[j4]]),
            decreases n - i3,
        {
            let key = self.database.key_at(i3);
            proof {
                assert(db.dom().contains(self.database.key_seq()[i3 as int]));
            }
            let p = match self.database.get(key) {
                Some(p) => p,
                None => {
                    proof {
                        assert(false);
                    }
                    LogPointer { id: 0, offset: 0 }
                },
            };
            let ghost old_list = self.migration();
            let mk = self.metadata.eligible_for_compaction.get_mark(p.id);
            let is_migrate = match mk {
                Some(CompactionAction::Migrate) => true,
                _ => false,
            };
            if is_migrate {
                proof {
                    // this pointer was not gathered for an earlier key
                    let kv = self.database.key_seq()[i3 as int];
                    assert forall|idx: int| 0 <= idx < old_list.len() implies old_list[idx]
                        != p by {
                        let j4 = choose|j4: int|
                            0 <= j4 < i3 && old_list[idx] == db[self.database.key_seq()[j4]];
                        let k2 = self.database.key_seq()[j4];
                        assert(db.dom().contains(k2));
                        if old_list[idx] == p {
                            assert(pointer_live(segs, db[k2], k2));
                            assert(pointer_live(segs, db[kv], kv));
                            lemma_pointer_key_unique(segs, p, k2, kv);
                            assert(self.database.key_seq().no_duplicates());
                        }
                    }
                }
                self.metadata.eligible_for_compaction.migration_list.push(p);
                proof {
                    assert(self.migration() =~= old_list.push(p));
                    assert forall|a: int, b: int|
                        0 <= a < b < self.migration().len() implies self.migration()[a]
                        != self.migration()[b] by {
                        if b < old_list.len() {
                            assert(old_list[a] != old_list[b]);
                        } else {
                            assert(self.migration()[b] == p);
                            assert(old_list[a] != p);
                        }
                    }
                    assert(self.migration().no_duplicates());
                    let kv2 = self.database.key_seq()[i3 as int];
                    assert(db.dom().contains(kv2) && db[kv2] == p);
                    assert(mark_is(marks, p.id, CompactionAction::Migrate));
                    assert(pointer_live(segs, p, kv2));
                    assert(record_key(segs, p) == kv2);
                    assert forall|idx: int|
                        0 <= idx < self.migration().len() implies db.dom().contains(
                            record_key(segs, #[trigger] self.migration()[idx]),
                        ) && db[record_key(segs, self.migration()[idx])] == self.migration()[idx]
                            && mark_is(
                            marks,
                            self.migration()[idx].id,
                            CompactionAction::Migrate,
                        ) by {
                        if idx < old_list.len() {
                            assert(self.migration()[idx] == old_list[idx]);
                        } else {
                            assert(self.migration()[idx] == p);
                        }
                    }
                }
            }
            proof {
                let kv = self.database.key_seq()[i3 as int];
                assert forall|j4: int|
                    0 <= j4 < i3 + 1 && mark_is(
                        marks,
                        db[#[trigger] self.database.key_seq()[j4]].id,
                        CompactionAction::Migrate,
                    ) implies self.migration().contains(db[self.database.key_seq()[j4]]) by {
                    if j4 < i3 {
                        assert(old_list.contains(db[self.database.key_seq()[j4]]));
                        let w = choose|w: int|
                            0 <= w < old_list.len() && old_list[w] == db[self.database.key_seq()[
                            j4]];
                        assert(self.migration()[w] == db[self.database.key_seq()[j4]]);
                    } else {
                        if !is_migrate {
                            if mark_is(marks, p.id, CompactionAction::Migrate) {
                                let w = choose|w: int|
                                    0 <= w < marks.len() && marks[w] == (
                                    p.id,
                                    CompactionAction::Migrate,
                                );
                                assert(has_mark(marks, p.id));
                                match mk {
                                    Some(a) => {
                                        lemma_mark_unique(
                                            marks,
                                            p.id,
                                            CompactionAction::Migrate,
                                            a,
                                        );
                                    },
                                    None => {
                                        assert((marks[w]).0 == p.id);
                                    },
                                }
                                assert(false);
                            }
                        } else {
                            assert(self.migration().last() == p);
                        }
                    }
                }
            }
            i3 += 1;
        }
        proof {
            // each gathered pointer is a live key's, in a marked segment
            assert forall|j: int| 0 <= j < self.migration().len() implies self.database@.dom().contains(
                record_key(self.segs(), #[trigger] self.migration()[j]),
            ) && self.database@[record_key(self.segs(), self.migration()[j])] == self.migration()[j]
                && mark_is(
                self.marks(),
                self.migration()[j].id,
                CompactionAction::Migrate,
            ) by {
                assert(db.dom().contains(record_key(segs, self.migration()[j])));
            }
            // every live key with a migrate-marked segment was gathered
            assert forall|k: Seq<char>|
                #[trigger] self.database@.dom().contains(k) && mark_is(
                    self.marks(),
                    self.database@[k].id,
                    CompactionAction::Migrate,
                ) implies self.migration().contains(self.database@[k]) by {
                assert(self.database.key_seq().contains(k));
                let j4 = choose|j4: int|
                    0 <= j4 < self.database.key_seq().len() && self.database.key_seq()[j4] == k;
                assert(mark_is(marks, db[self.database.key_seq()[j4]].id, CompactionAction::Migrate));
            }
        }
    }
}

impl LogIndex {
    /// Re-appends every record on the migration list through the normal
    /// write path, then reclassifies the migrated segments as removable.
    /// Rotation is skipped here — the engine is compacting — so records
    /// append straight to the active segment.
    fn try_migrating_infrequently_accessed_keys(&mut self) -> (r: Result<(), KvsError>)
        requires
            old(self).base_inv(),
            forall|i: int|
                0 <= i < old(self).marks().len() ==> (#[trigger] old(self).marks()[i]).0 != old(self).metadata.active_log_id,
            forall|k: Seq<char>|
                #[trigger] old(self).database@.dom().contains(k) ==> !mark_is(
                    old(self).marks(),
                    old(self).database@[k].id,
                    CompactionAction::Remove,
                ),
            forall|j: int|
                0 <= j < old(self).migration().len() ==> old(self).database@.dom().contains(
                    record_key(old(self).segs(), #[trigger] old(self).migration()[j]),
                ) && old(self).database@[record_key(
                    old(self).segs(),
                    old(self).migration()[j],
                )] == old(self).migration()[j] && mark_is(
                    old(self).marks(),
                    old(self).migration()[j].id,
                    CompactionAction::Migrate,
                ),
            forall|k: Seq<char>|
                #[trigger] old(self).database@.dom().contains(k) && mark_is(
                    old(self).marks(),
                    old(self).database@[k].id,
                    CompactionAction::Migrate,
                ) ==> old(self).migration().contains(old(self).database@[k]),
            old(self).migration().no_duplicates(),
        ensures
            r is Ok,
            final(self).base_inv(),
            final(self)@ == old(self)@,
            final(self).migration().len() == 0,
            final(self).marks().len() == old(self).marks().len(),
            forall|i: int|
                0 <= i < final(self).marks().len() ==> (#[trigger] final(self).marks()[i]) == (
                    old(self).marks()[i].0,
                    CompactionAction::Remove,
                ),
            forall|i: int|
                0 <= i < final(self).marks().len() ==> (#[trigger] final(self).marks()[i]).1
                    == CompactionAction::Remove && final(self).marks()[i].0 != final(self).metadata.active_log_id,
            forall|k: Seq<char>, i: int|
                #[trigger] final(self).database@.dom().contains(k) && 0 <= i < final(self).marks().len() ==> final(self).database@[k].id != (
                #[trigger] final(self).marks()[i]).0,
            final(self).metadata.active_log_id == old(self).metadata.active_log_id,
            final(self).metadata.ids == old(self).metadata.ids,
            final(self).metadata.state == old(self).metadata.state,
            final(self).clean == old(self).clean,
            final(self).segs().last().id == old(self).segs().last().id,
    {
        let ghost marks0 = self.marks();
        let ghost view0 = store_map(self.database@, self.segs());
        while self.metadata.eligible_for_compaction.migration_list.len() > 0
            invariant
                self.base_inv(),
                self.marks() == marks0,
                self.metadata.active_log_id == old(self).metadata.active_log_id,
                self.metadata.ids == old(self).metadata.ids,
                self.metadata.state == old(self).metadata.state,
                self.clean == old(self).clean,
                self.segs().last().id == old(self).segs().last().id,
                store_map(self.database@, self.segs()) == view0,
                forall|i: int|
                    0 <= i < marks0.len() ==> (#[trigger] marks0[i]).0
                        != self.metadata.active_log_id,
                forall|k: Seq<char>|
                    #[trigger] self.database@.dom().contains(k) ==> !mark_is(
                        marks0,
                        self.database@[k].id,
                        CompactionAction::Remove,
                    ),
                forall|j: int|
                    0 <= j < self.migration().len() ==> self.database@.dom().contains(
                        record_key(self.segs(), #[trigger] self.migration()[j]),
                    ) && self.database@[record_key(self.segs(), self.migration()[j])]
                        == self.migration()[j] && mark_is(
                        marks0,
                        self.migration()[j].id,
                        CompactionAction::Migrate,
                    ),
                forall|k: Seq<char>|
                    #[trigger] self.database@.dom().contains(k) && mark_is(
                        marks0,
                        self.database@[k].id,
                        CompactionAction::Migrate,
                    ) ==> self.migration().contains(self.database@[k]),
                self.migration().no_duplicates(),
            decreases self.migration().len(),
        {
            let ghost segs = self.segs();
            let ghost db = self.database@;
            let ghost list0 = self.migration();
            let p = match self.metadata.eligible_for_compaction.migration_list.pop() {
                Some(p) => p,
                None => {
                    proof {
                        assert(false);
                    }
                    LogPointer { id: 0, offset: 0 }
                },
            };
            proof {
                assert(p == list0.last());
                assert(self.migration() == list0.drop_last());
            }
            let ghost kp = record_key(segs, p);
            proof {
                assert(db.dom().contains(kp) && db[kp] == p);
                assert(pointer_live(segs, db[kp], kp));
            }
            let command = match self.get_command(&p) {
                Ok(Some(c)) => c,
                Ok(None) => {
                    proof {
                        assert(false);
                    }
                    return Err(KvsError::SerializationError);
                },
                Err(e) => {
                    proof {
                        assert(false);
                    }
                    return Err(e);
                },
            };
            proof {
                assert(record_at(segs, p) == Some(command@));
                assert(command@ matches CommandView::SetCmd { key, value } && key == kp && value
                    == pointer_value(segs, p));
                assert(store_map(db, segs)[kp] == pointer_value(segs, p));
            }
            let ghost active0 = self.metadata.active_log_id;
            let ghost size0 = self.metadata.size;
            self.append_record(command);
            proof {
                let newp = LogPointer { id: active0, offset: size0 };
                let segs2 = self.segs();
                let db2 = self.database@;
                assert(db2 == db.insert(kp, newp));
                assert(store_map(db2, segs2) == store_map(db, segs).insert(
                    kp,
                    pointer_value(segs, p),
                ));
                assert(store_map(db, segs).insert(kp, pointer_value(segs, p)) =~= store_map(
                    db,
                    segs,
                ));
                // every remaining pointer still names a live record of the
                // same key: the log only grew at its end
                assert forall|j: int| 0 <= j < self.migration().len() implies {
                    let q = #[trigger] self.migration()[j];
                    &&& record_key(segs2, q) == record_key(segs, q)
                    &&& db2.dom().contains(record_key(segs, q))
                    &&& db2[record_key(segs, q)] == q
                    &&& mark_is(marks0, q.id, CompactionAction::Migrate)
                } by {
                    let q = self.migration()[j];
                    assert(q == list0[j]);
                    let kq = record_key(segs, q);
                    assert(db.dom().contains(kq) && db[kq] == q);
                    assert(pointer_live(segs, db[kq], kq));
                    lemma_record_at_extend(
                        segs,
                        segs2,
                        segs.len() - 1,
                        spec_encode_command(command@),
                        q,
                    );
                    if kq == kp {
                        assert(q == db[kp]);
                        assert(q == p);
                        assert(list0[j] == list0.last());
                    }
                }
                assert forall|k: Seq<char>|
                    #[trigger] db2.dom().contains(k) && mark_is(
                        marks0,
                        db2[k].id,
                        CompactionAction::Migrate,
                    ) implies self.migration().contains(db2[k]) by {
                    if k == kp {
                        assert(db2[k] == newp);
                        assert(newp.id == active0);
                        if mark_is(marks0, active0, CompactionAction::Migrate) {
                            let w = choose|w: int|
                                0 <= w < marks0.len() && marks0[w] == (
                                active0,
                                CompactionAction::Migrate,
                            );
                            assert(marks0[w].0 != active0);
                        }
                    } else {
                        assert(db.dom().contains(k) && db[k] == db2[k]);
                        assert(list0.contains(db[k]));
                        let w = choose|w: int| 0 <= w < list0.len() && list0[w] == db[k];
                        if w == list0.len() - 1 {
                            assert(db[k] == p);
                            assert(pointer_live(segs, db[k], k));
                            assert(pointer_live(segs, p, kp));
                            lemma_pointer_key_unique(segs, p, k, kp);
                        } else {
                            assert(self.migration()[w] == db[k]);
                        }
                    }
                }
                assert forall|k: Seq<char>|
                    #[trigger] db2.dom().contains(k) implies !mark_is(
                        marks0,
                        db2[k].id,
                        CompactionAction::Remove,
                    ) by {
                    if k == kp {
                        if mark_is(marks0, active0, CompactionAction::Remove) {
                            let w = choose|w: int|
                                0 <= w < marks0.len() && marks0[w] == (
                                active0,
                                CompactionAction::Remove,
                            );
                            assert(marks0[w].0 != active0);
                        }
                    } else {
                        assert(db.dom().contains(k));
                    }
                }
            }
        }
        // all live records left the marked segments: reclassify them as
        // removable
        let ghost db1 = self.database@;
        let ghost view1 = store_map(self.database@, self.segs());
        proof {
            assert forall|k: Seq<char>| #[trigger] db1.dom().contains(k) implies !has_mark(
                marks0,
                db1[k].id,
            ) by {
                if has_mark(marks0, db1[k].id) {
                    let w = choose|w: int|
                        0 <= w < marks0.len() && (#[trigger] marks0[w]).0 == db1[k].id;
                    if marks0[w].1 == CompactionAction::Migrate {
                        assert(mark_is(marks0, db1[k].id, CompactionAction::Migrate));
                        assert(self.migration().contains(db1[k]));
                    } else {
                        assert(mark_is(marks0, db1[k].id, CompactionAction::Remove));
                    }
                }
            }
        }
        let m = self.metadata.eligible_for_compaction.ids.len();
        let mut flipped: Vec<(u64, CompactionAction)> = Vec::new();
        let mut t: usize = 0;
        while t < m
            invariant
                t <= m,
                flipped@.len() == t,
                self.base_inv(),
                self.marks() == marks0,
                m == marks0.len(),
                self.migration().len() == 0,
                view1 == store_map(self.database@, self.segs()),
                db1 == self.database@,
                self.metadata.active_log_id == old(self).metadata.active_log_id,
                self.metadata.ids == old(self).metadata.ids,
                self.metadata.state == old(self).metadata.state,
                self.clean == old(self).clean,
                self.segs().last().id == old(self).segs().last().id,
                forall|a: int| 0 <= a < marks0.len() ==> (#[trigger] marks0[a]).0
                    != self.metadata.active_log_id,
                forall|k: Seq<char>|
                    #[trigger] db1.dom().contains(k) ==> !has_mark(marks0, db1[k].id),
                forall|a: int|
                    0 <= a < t ==> #[trigger] flipped@[a] == (
                        marks0[a].0,
                        CompactionAction::Remove,
                    ),
            decreases m - t,
        {
            let e = self.metadata.eligible_for_compaction.ids[t];
            flipped.push((e.0, CompactionAction::Remove));
            t += 1;
        }
        self.metadata.eligible_for_compaction.ids = flipped;
        proof {
            let nv = self.marks();
            assert(marks0 == old(self).marks());
            assert(nv.len() == marks0.len());
            assert forall|a: int| 0 <= a < nv.len() implies (#[trigger] nv[a]) == (
                old(self).marks()[a].0,
                CompactionAction::Remove,
            ) by {
                assert(nv[a] == (marks0[a].0, CompactionAction::Remove));
            }
            assert forall|a: int, b: int|
                0 <= a < b < nv.len() implies (#[trigger] nv[a]).0 != (#[trigger] nv[b]).0 by {
                assert(nv[a].0 == marks0[a].0 && nv[b].0 == marks0[b].0);
                assert(marks0[a].0 != marks0[b].0);
            }
            assert forall|a: int| 0 <= a < nv.len() implies self.metadata.ids@.contains(
                (#[trigger] nv[a]).0,
            ) && nv[a].1 == CompactionAction::Remove && nv[a].0 != self.metadata.active_log_id by {
                assert(nv[a].0 == marks0[a].0);
                assert(self.metadata.ids@.contains(marks0[a].0));
            }
            assert forall|k: Seq<char>, i: int|
                #[trigger] self.database@.dom().contains(k) && 0 <= i < nv.len() implies
                self.database@[k].id != (#[trigger] nv[i]).0 by {
                assert(!has_mark(marks0, db1[k].id));
                if self.database@[k].id == nv[i].0 {
                    assert(marks0[i].0 == db1[k].id);
                }
            }
        }
        Ok(())
    }

    /// Deletes every segment marked `Remove`; their records were migrated
    /// or superseded, so no live key loses its value.
    fn try_removing_stale_logs(&mut self) -> (r: Result<(), KvsError>)
        requires
            old(self).base_inv(),
            forall|k: Seq<char>, i: int|
                #[trigger] old(self).database@.dom().contains(k) && 0 <= i < old(
                    self,
                ).marks().len() ==> old(self).database@[k].id != (#[trigger] old(self).marks()[i]).0,
            forall|i: int|
                0 <= i < old(self).marks().len() ==> (#[trigger] old(self).marks()[i]).0 != old(
                    self,
                ).metadata.active_log_id,
        ensures
            r is Ok,
            final(self).base_inv(),
            final(self)@ == old(self)@,
            final(self).database == old(self).database,
            final(self).metadata == old(self).metadata,
            final(self).clean == old(self).clean,
            forall|i: int|
                0 <= i < final(self).marks().len() ==> find_seg(
                    final(self).segs(),
                    (#[trigger] final(self).marks()[i]).0,
                ) is None,
            forall|j: int|
                0 <= j < old(self).segs().len() && !has_mark(
                    old(self).marks(),
                    (#[trigger] old(self).segs()[j]).id,
                ) ==> final(self).segs().contains(old(self).segs()[j]),
            final(self).segs().last() == old(self).segs().last(),
    {
        let ghost segs0 = self.segs();
        let ghost db = self.database@;
        let mut tmp: Vec<Segment> = Vec::new();
        while self.segments.len() > 0
            invariant
                self.database == old(self).database,
                self.metadata == old(self).metadata,
                self.clean == old(self).clean,
                seg_views(self.segments@).len() + tmp@.len() == segs0.len(),
                seg_views(self.segments@) == segs0.subrange(
                    0,
                    seg_views(self.segments@).len() as int,
                ),
                forall|j: int|
                    0 <= j < tmp@.len() ==> seg_views(tmp@)[j] == segs0[segs0.len() - 1 - j],
                segs0 == old(self).segs(),
            decreases self.segments@.len(),
        {
            let ghost tmp0 = tmp@;
            let ghost cur0 = seg_views(self.segments@);
            let s = match self.segments.pop() {
                Some(s) => s,
                None => {
                    proof {
                        assert(false);
                    }
                    Segment { id: 0, data: Vec::new() }
                },
            };
            tmp.push(s);
            proof {
                assert(s@ == cur0.last());
                assert(seg_views(self.segments@) =~= cur0.drop_last());
                assert(seg_views(self.segments@) =~= segs0.subrange(
                    0,
                    seg_views(self.segments@).len() as int,
                ));
                assert(seg_views(tmp@) =~= seg_views(tmp0).push(s@));
                assert forall|j: int| 0 <= j < tmp@.len() implies seg_views(tmp@)[j] == segs0[
                    segs0.len() - 1 - j] by {
                    if j < tmp0.len() {
                        assert(seg_views(tmp@)[j] == seg_views(tmp0)[j]);
                    } else {
                        assert(seg_views(tmp@)[j] == s@);
                        assert(s@ == segs0[cur0.len() - 1]);
                    }
                }
            }
        }
        proof {
            assert(self.marks() == old(self).marks());
            assert forall|k: Seq<char>, i: int|
                #[trigger] db.dom().contains(k) && 0 <= i < self.marks().len() implies db[k].id
                != (#[trigger] self.marks()[i]).0 by {
                assert(old(self).database@.dom().contains(k));
                assert(old(self).database@[k].id != (old(self).marks()[i]).0);
            }
            assert forall|i: int| 0 <= i < self.marks().len() implies (
            #[trigger] self.marks()[i]).0 != self.metadata.active_log_id by {
                assert((old(self).marks()[i]).0 != old(self).metadata.active_log_id);
            }
        }
        while tmp.len() > 0
            invariant
                self.database == old(self).database,
                self.metadata == old(self).metadata,
                self.clean == old(self).clean,
                tmp@.len() <= segs0.len(),
                segs0 == old(self).segs(),
                db == self.database@,
                ids_sorted(segs0),
                forall|j: int|
                    0 <= j < tmp@.len() ==> seg_views(tmp@)[j] == segs0[segs0.len() - 1 - j],
                forall|a: int|
                    0 <= a < seg_views(self.segments@).len() ==> exists|j: int|
                        0 <= j < segs0.len() - tmp@.len() && #[trigger] seg_views(self.segments@)[a]
                            == segs0[j],
                forall|a: int|
                    0 <= a < seg_views(self.segments@).len() ==> !has_mark(
                        self.marks(),
                        (#[trigger] seg_views(self.segments@)[a]).id,
                    ),
                forall|j: int|
                    0 <= j < segs0.len() - tmp@.len() && !has_mark(
                        self.marks(),
                        (#[trigger] segs0[j]).id,
                    ) ==> seg_views(self.segments@).contains(segs0[j]),
                ids_sorted(seg_views(self.segments@)),
                forall|k: Seq<char>, i: int|
                    #[trigger] db.dom().contains(k) && 0 <= i < old(self).marks().len() ==> db[k].id
                        != (#[trigger] old(self).marks()[i]).0,
                forall|i: int|
                    0 <= i < old(self).marks().len() ==> (#[trigger] old(self).marks()[i]).0
                        != old(self).metadata.active_log_id,
            decreases tmp@.len(),
        {
            let ghost tmp0 = tmp@;
            let s = match tmp.pop() {
                Some(s) => s,
                None => {
                    proof {
                        assert(false);
                    }
                    Segment { id: 0, data: Vec::new() }
                },
            };
            let ghost i = segs0.len() - tmp0.len();
            proof {
                assert(s@ == seg_views(tmp0)[tmp0.len() - 1]);
                assert(s@ == segs0[i]);
                assert(seg_views(tmp@) =~= seg_views(tmp0).drop_last());
                assert forall|j: int| 0 <= j < tmp@.len() implies seg_views(tmp@)[j] == segs0[
                    segs0.len() - 1 - j] by {
                    assert(seg_views(tmp@)[j] == seg_views(tmp0)[j]);
                }
            }
            let keep = match self.metadata.eligible_for_compaction.get_mark(s.id) {
                Some(CompactionAction::Remove) => false,
                Some(CompactionAction::Migrate) => false,
                None => true,
            };
            if keep {
                let ghost kept0 = seg_views(self.segments@);
                self.segments.push(s);
                proof {
                    assert(seg_views(self.segments@) =~= kept0.push(segs0[i]));
                    assert forall|a: int, b: int|
                        0 <= a < b < seg_views(self.segments@).len() implies seg_views(
                        self.segments@,
                    )[a].id < seg_views(self.segments@)[b].id by {
                        if b == kept0.len() {
                            let j = choose|j: int| 0 <= j < i && kept0[a] == segs0[j];
                            assert(segs0[j].id < segs0[i].id);
                        } else {
                            assert(kept0[a].id < kept0[b].id);
                        }
                    }
                    assert forall|j: int|
                        0 <= j < segs0.len() - tmp@.len() && !has_mark(
                            self.marks(),
                            (#[trigger] segs0[j]).id,
                        ) implies seg_views(self.segments@).contains(segs0[j]) by {
                        if j < i {
                            assert(kept0.contains(segs0[j]));
                            let w = choose|w: int| 0 <= w < kept0.len() && kept0[w] == segs0[j];
                            assert(seg_views(self.segments@)[w] == segs0[j]);
                        } else {
                            assert(seg_views(self.segments@)[kept0.len() as int] == segs0[i]);
                        }
                    }
                }
            } else {
                proof {
                    assert(has_mark(self.marks(), segs0[i].id));
                    assert forall|j: int|
                        0 <= j < segs0.len() - tmp@.len() && !has_mark(
                            self.marks(),
                            (#[trigger] segs0[j]).id,
                        ) implies seg_views(self.segments@).contains(segs0[j]) by {
                        assert(j != i);
                    }
                }
            }
        }
        proof {
            let kept = seg_views(self.segments@);
            assert(self.marks() == old(self).marks());
            // the active segment is unmarked, so it was kept, and as the
            // largest id it is still last
            assert(!has_mark(self.marks(), segs0.last().id)) by {
                if has_mark(self.marks(), segs0.last().id) {
                    let w = choose|w: int|
                        0 <= w < self.marks().len() && (#[trigger] self.marks()[w]).0
                            == segs0.last().id;
                    assert(self.marks()[w].0 != self.metadata.active_log_id);
                }
            }
            assert(kept.contains(segs0.last()));
            let wa = choose|w: int| 0 <= w < kept.len() && kept[w] == segs0.last();
            assert(kept.len() >= 1);
            assert forall|a: int| 0 <= a < kept.len() implies kept[a].id <= segs0.last().id by {
                let j = choose|j: int| 0 <= j < segs0.len() && kept[a] == segs0[j];
                if j < segs0.len() - 1 {
                    assert(segs0[j].id < segs0.last().id);
                }
            }
            if wa != kept.len() - 1 {
                assert(kept[wa].id < kept[kept.len() - 1].id);
            }
            assert(kept.last() == segs0.last());
            // every live pointer still finds its record: its segment was kept
            assert forall|k: Seq<char>| #[trigger] db.dom().contains(k) implies pointer_live(
                kept,
                db[k],
                k,
            ) && pointer_value(kept, db[k]) == pointer_value(segs0, db[k]) by {
                assert(pointer_live(segs0, db[k], k));
                lemma_find_seg_member(segs0, db[k].id);
                let s = find_seg(segs0, db[k].id)->Some_0;
                let j = choose|j: int| 0 <= j < segs0.len() && segs0[j] == s;
                assert(!has_mark(self.marks(), segs0[j].id)) by {
                    if has_mark(self.marks(), segs0[j].id) {
                        let w = choose|w: int|
                            0 <= w < self.marks().len() && (#[trigger] self.marks()[w]).0 == segs0[
                            j].id;
                        assert(db[k].id != self.marks()[w].0);
                    }
                }
                assert(kept.contains(segs0[j]));
                let a = choose|a: int| 0 <= a < kept.len() && kept[a] == segs0[j];
                assert forall|b: int| 0 <= b < a implies kept[b].id != db[k].id by {
                    assert(kept[b].id < kept[a].id);
                }
                lemma_find_seg_first(kept, db[k].id, a);
            }
            assert(store_map(db, kept) =~= store_map(db, segs0));
            // no marked id is present any more
            assert forall|i2: int| 0 <= i2 < self.marks().len() implies find_seg(
                kept,
                (#[trigger] self.marks()[i2]).0,
            ) is None by {
                assert forall|a: int| 0 <= a < kept.len() implies kept[a].id != self.marks()[
                    i2].0 by {
                    assert(!has_mark(self.marks(), kept[a].id));
                    if kept[a].id == self.marks()[i2].0 {
                        assert((self.marks()[i2]).0 == kept[a].id);
                    }
                }
                lemma_find_seg_absent(kept, self.marks()[i2].0);
            }
            // structure: every kept segment was already there
            assert forall|a: int| 0 <= a < kept.len() implies data_ok(
                (#[trigger] kept[a]).data,
                0,
            ) && self.metadata.ids@.contains(kept[a].id) by {
                let j = choose|j: int| 0 <= j < segs0.len() && kept[a] == segs0[j];
                assert(data_ok(segs0[j].data, 0));
                assert(old(self).metadata.ids@.contains(segs0[j].id));
            }
        }
        Ok(())
    }


    /// Runs one whole compaction: classification, migration, reclamation.
    /// The observable map is untouched; only where records lie changes.
    fn try_compacting_logs(&mut self) -> (r: Result<(), KvsError>)
        requires
            old(self).base_inv(),
            old(self).metadata.state == LogIndexState::Ready,
            old(self).migration().len() == 0,
            forall|i: int|
                0 <= i < old(self).marks().len() ==> (#[trigger] old(self).marks()[i]).1
                    == CompactionAction::Remove && find_seg(
                    old(self).segs(),
                    old(self).marks()[i].0,
                ) is None,
            old(self).segs().last().data.len() == 0,
        ensures
            r is Ok,
            final(self).inv(),
            final(self)@ == old(self)@,
            final(self).metadata.active_log_id == old(self).metadata.active_log_id,
            final(self).metadata.ids == old(self).metadata.ids,
            !final(self).is_clean(),
            // the segments the density rule condemns are gone: a known id
            // with no live records (other than the active one), or with a
            // live-record count within the threshold share of the busiest
            // segment, has no segment any more
            forall|t: int|
                #![trigger old(self).metadata.ids@[t]]
                0 <= t < old(self).metadata.ids@.len() ==> {
                    let id = old(self).metadata.ids@[t];
                    let c = live_count(old(self).database@, old(self).database.key_seq(), id);
                    let m1 = busiest_count(
                        old(self).database@,
                        old(self).database.key_seq(),
                        old(self).metadata.ids@,
                    );
                    ((c == 0 && id != old(self).metadata.active_log_id) || (c >= 1 && c * 100 / m1
                        <= LOG_COMPACTION_MAX_KEY_DENSITY_PERCENT)) ==> find_seg(
                        final(self).segs(),
                        id,
                    ) is None
                },
    {
        let ghost db0 = self.database@;
        let ghost kk0 = self.database.key_seq();
        let ghost ids00 = self.metadata.ids@;
        let ghost active0 = self.metadata.active_log_id;
        self.metadata.state = LogIndexState::Compacting;
        proof {
            assert(self.marks() == old(self).marks());
            assert forall|i: int| 0 <= i < self.marks().len() implies find_seg(
                self.segs(),
                (#[trigger] self.marks()[i]).0,
            ) is None by {
                assert((old(self).marks()[i]).1 == CompactionAction::Remove && find_seg(
                    old(self).segs(),
                    (old(self).marks()[i]).0,
                ) is None);
            }
        }
        self.identify_logs_that_can_be_compacted();
        let ghost marks_mid = self.marks();
        proof {
            assert forall|t: int|
                #![trigger ids00[t]]
                0 <= t < ids00.len() implies {
                let id = ids00[t];
                let c = live_count(db0, kk0, id);
                let m1 = busiest_count(db0, kk0, ids00);
                ((c == 0 && id != active0) || (c >= 1 && c * 100 / m1
                    <= LOG_COMPACTION_MAX_KEY_DENSITY_PERCENT)) ==> (mark_is(
                    marks_mid,
                    id,
                    CompactionAction::Remove,
                ) || mark_is(marks_mid, id, CompactionAction::Migrate))
            } by {}
        }
        match self.try_migrating_infrequently_accessed_keys() {
            Ok(()) => {},
            Err(e) => {
                proof {
                    assert(false);
                }
                return Err(e);
            },
        }
        let ghost marks_flip = self.marks();
        proof {
            assert(marks_flip.len() == marks_mid.len());
            assert(forall|w: int|
                0 <= w < marks_flip.len() ==> #[trigger] marks_flip[w] == (
                    marks_mid[w].0,
                    CompactionAction::Remove,
                ));
        }
        match self.try_removing_stale_logs() {
            Ok(()) => {},
            Err(e) => {
                proof {
                    assert(false);
                }
                return Err(e);
            },
        }
        self.metadata.state = LogIndexState::Ready;
        self.clean = Ghost(false);
        proof {
            assert(self.marks() == marks_flip);
            assert forall|t: int|
                #![trigger ids00[t]]
                0 <= t < ids00.len() implies {
                let id = ids00[t];
                let c = live_count(db0, kk0, id);
                let m1 = busiest_count(db0, kk0, ids00);
                ((c == 0 && id != active0) || (c >= 1 && c * 100 / m1
                    <= LOG_COMPACTION_MAX_KEY_DENSITY_PERCENT)) ==> find_seg(
                    self.segs(),
                    id,
                ) is None
            } by {
                let id = ids00[t];
                let c = live_count(db0, kk0, id);
                let m1 = busiest_count(db0, kk0, ids00);
                if (c == 0 && id != active0) || (c >= 1 && c * 100 / m1
                    <= LOG_COMPACTION_MAX_KEY_DENSITY_PERCENT) {
                    if mark_is(marks_mid, id, CompactionAction::Remove) {
                        let w = choose|w: int|
                            0 <= w < marks_mid.len() && marks_mid[w] == (
                            id,
                            CompactionAction::Remove,
                        );
                        assert(marks_flip[w].0 == id);
                        assert(find_seg(self.segs(), self.marks()[w].0) is None);
                    } else {
                        let w = choose|w: int|
                            0 <= w < marks_mid.len() && marks_mid[w] == (
                            id,
                            CompactionAction::Migrate,
                        );
                        assert(marks_flip[w].0 == id);
                        assert(find_seg(self.segs(), self.marks()[w].0) is None);
                    }
                }
            }
        }
        Ok(())
    }

    /// When the active segment has grown past [`LOG_ROTATION_MIN_SIZE_BYTES`],
    /// opens a fresh segment with the next id, makes it active, and runs
    /// compaction.  Migration appends records directly, so compaction never
    /// rotates from inside itself.
    fn try_log_rotate(&mut self) -> (r: Result<bool, KvsError>)
        requires
            old(self).inv(),
        ensures
            r is Ok,
            final(self).inv(),
            final(self)@ == old(self)@,
            r matches Ok(b) ==> (b <==> (old(self).metadata.size > LOG_ROTATION_MIN_SIZE_BYTES
                && old(self).metadata.active_log_id < u64::MAX)),
            r == Ok::<bool, KvsError>(false) ==> *final(self) == *old(self),
            r == Ok::<bool, KvsError>(true) ==> {
                &&& final(self).metadata.active_log_id == old(self).metadata.active_log_id + 1
                &&& final(self).metadata.ids@ == old(self).metadata.ids@.push(
                    final(self).metadata.active_log_id,
                )
                &&& !final(self).is_clean()
            },
    {
        if self.metadata.size > LOG_ROTATION_MIN_SIZE_BYTES && self.metadata.active_log_id
            < u64::MAX {
            let ghost segs = self.segs();
            let ghost db = self.database@;
            let new_id = self.metadata.active_log_id + 1;
            self.segments.push(Segment { id: new_id, data: Vec::new() });
            self.metadata.ids.push(new_id);
            self.metadata.active_log_id = new_id;
            self.metadata.size = 0;
            proof {
                let segs2 = self.segs();
                assert(segs2 =~= segs.push(SegmentView { id: new_id, data: Seq::empty() }));
                assert forall|a: int| 0 <= a < segs.len() implies segs[a].id < new_id by {
                    if a < segs.len() - 1 {
                        assert(segs[a].id < segs.last().id);
                    }
                }
                assert(ids_sorted(segs2));
                assert forall|k: Seq<char>| #[trigger] db.dom().contains(k) implies pointer_live(
                    segs2,
                    db[k],
                    k,
                ) && pointer_value(segs2, db[k]) == pointer_value(segs, db[k]) by {
                    assert(pointer_live(segs, db[k], k));
                    lemma_find_seg_member(segs, db[k].id);
                    lemma_find_seg_push(segs, SegmentView { id: new_id, data: Seq::empty() }, db[k].id);
                    let s = find_seg(segs, db[k].id)->Some_0;
                    assert(db[k].id != new_id);
                }
                assert(store_map(db, segs2) =~= store_map(db, segs));
                assert(self.metadata.ids@ == old(self).metadata.ids@.push(new_id));
                assert forall|a: int, b: int|
                    0 <= a < b < self.metadata.ids@.len() implies self.metadata.ids@[a]
                    < self.metadata.ids@[b] by {
                    if b == self.metadata.ids@.len() - 1 {
                        if a < old(self).metadata.ids@.len() - 1 {
                            assert(old(self).metadata.ids@[a] < old(self).metadata.ids@.last());
                        }
                    } else {
                        assert(old(self).metadata.ids@[a] < old(self).metadata.ids@[b]);
                    }
                }
                assert(self.marks() == old(self).marks());
                assert forall|a: int| 0 <= a < self.marks().len() implies (
                #[trigger] self.marks()[a]).1 == CompactionAction::Remove by {
                    assert((old(self).marks()[a]).1 == CompactionAction::Remove);
                }
                assert forall|a: int| 0 <= a < self.marks().len() implies self.metadata.ids@.contains(
                    (#[trigger] self.marks()[a]).0,
                ) by {
                    assert(old(self).metadata.ids@.contains((old(self).marks()[a]).0));
                    let w = choose|w: int|
                        0 <= w < old(self).metadata.ids@.len() && old(self).metadata.ids@[w] == (
                        old(self).marks()[a]).0;
                    assert(self.metadata.ids@[w] == old(self).metadata.ids@[w]);
                }
                assert forall|a: int| 0 <= a < self.marks().len() implies find_seg(
                    segs2,
                    (#[trigger] self.marks()[a]).0,
                ) is None && self.marks()[a].0 != new_id by {
                    assert(find_seg(segs, self.marks()[a].0) is None);
                    assert(old(self).metadata.ids@.contains(self.marks()[a].0));
                    let w = choose|w: int|
                        0 <= w < old(self).metadata.ids@.len() && old(self).metadata.ids@[w] == (
                        #[trigger] self.marks()[a]).0;
                    if w < old(self).metadata.ids@.len() - 1 {
                        assert(old(self).metadata.ids@[w] < old(self).metadata.ids@.last());
                    }
                    lemma_find_seg_push(
                        segs,
                        SegmentView { id: new_id, data: Seq::empty() },
                        self.marks()[a].0,
                    );
                }
                assert forall|i: int| 0 <= i < segs2.len() implies self.metadata.ids@.contains(
                    (#[trigger] segs2[i]).id,
                ) && data_ok(segs2[i].data, 0) by {
                    if i < segs.len() {
                        assert(segs2[i] == segs[i]);
                        assert(old(self).metadata.ids@.contains(segs[i].id));
                        let w = choose|w: int|
                            0 <= w < old(self).metadata.ids@.len() && old(self).metadata.ids@[w]
                                == (#[trigger] segs[i]).id;
                        assert(self.metadata.ids@[w] == segs[i].id);
                    } else {
                        assert(segs2[i].id == new_id);
                        assert(self.metadata.ids@.last() == new_id);
                    }
                }
            }
            match self.try_compacting_logs() {
                Ok(()) => {},
                Err(e) => {
                    proof {
                        assert(false);
                    }
                    return Err(e);
                },
            }
            Ok(true)
        } else {
            Ok(false)
        }
    }

    /// The write path: weigh rotation, append the record, publish the key,
    /// and weigh rotation again now that the segment has grown.
    fn log_command(&mut self, command: Command) -> (r: Result<(), KvsError>)
        requires
            old(self).inv(),
            !(command@ is Get),
        ensures
            r is Ok,
            final(self).inv(),
            final(self)@ == match command@ {
                CommandView::SetCmd { key, value } => old(self)@.insert(key, value),
                CommandView::Rm { key } => old(self)@.remove(key),
                CommandView::Get { .. } => old(self)@,
            },
            // a write that keeps the active segment within the rotation
            // bound is one plain append: the record lands at the end of the
            // active segment, nothing else moves, and a clean store stays
            // clean
            old(self).metadata.size + spec_encode_command(command@).len()
                <= LOG_ROTATION_MIN_SIZE_BYTES ==> {
                &&& final(self).segs().len() == old(self).segs().len()
                &&& (forall|j: int|
                    0 <= j < old(self).segs().len() - 1 ==> final(self).segs()[j] == old(
                        self,
                    ).segs()[j])
                &&& final(self).segs().last().id == old(self).segs().last().id
                &&& final(self).segs().last().data == old(self).segs().last().data
                    + spec_encode_command(command@)
                &&& final(self).metadata.size == old(self).metadata.size + spec_encode_command(
                    command@,
                ).len()
                &&& final(self).is_clean() == old(self).is_clean()
            },
    {
        match self.try_log_rotate() {
            Ok(_) => {},
            Err(e) => {
                proof {
                    assert(false);
                }
                return Err(e);
            },
        }
        let ghost mid = *self;
        self.append_record(command);
        proof {
            // the marked segments stay deleted: the append changed no id
            assert forall|a: int| 0 <= a < self.marks().len() implies (#[trigger] self.marks()[
                a]).1 == CompactionAction::Remove && find_seg(
                self.segs(),
                self.marks()[a].0,
            ) is None by {
                assert(self.marks() == mid.marks());
                assert((mid.marks()[a]).1 == CompactionAction::Remove);
                assert(find_seg(mid.segs(), mid.marks()[a].0) is None);
                assert forall|j: int| 0 <= j < self.segs().len() implies self.segs()[j].id != (
                #[trigger] self.marks()[a]).0 by {
                    if self.segs()[j].id == self.marks()[a].0 {
                        if j < self.segs().len() - 1 {
                            assert(self.segs()[j] == mid.segs()[j]);
                        } else {
                            assert(self.segs()[j].id == mid.segs()[j].id);
                        }
                        lemma_find_seg_some_of_member(mid.segs(), j);
                    }
                }
                lemma_find_seg_absent(self.segs(), self.marks()[a].0);
            }
            // a clean log still replays to exactly the live map
            if self.clean@ {
                assert(disk_map(mid.segs()) == Some(mid@));
                assert(disk_map(self.segs()) == replay_step(mid@, command@));
            }
        }
        let ghost s2 = *self;
        match self.try_log_rotate() {
            Ok(_) => {},
            Err(e) => {
                proof {
                    assert(false);
                }
                return Err(e);
            },
        }
        proof {
            if old(self).metadata.size + spec_encode_command(command@).len()
                <= LOG_ROTATION_MIN_SIZE_BYTES {
                assert(mid == *old(self));
                assert(s2.metadata.size == s2.segs().last().data.len());
                assert(s2.metadata.size <= LOG_ROTATION_MIN_SIZE_BYTES);
                assert(*self == s2);
            }
        }
        Ok(())
    }
}

impl LogIndex {
    /// Whether a key is live.
    fn contains_key(&self, key: &String) -> (r: bool)
        ensures
            r == self@.dom().contains(key@),
    {
        self.database.contains_key(key)
    }
}

/// A byte-for-byte copy of one segment's bytes.
fn clone_bytes(data: &Vec<u8>) -> (r: Vec<u8>)
    ensures
        r@ == data@,
{
    let mut out: Vec<u8> = Vec::new();
    let mut i: usize = 0;
    while i < data.len()
        invariant
            i <= data@.len(),
            out@ == data@.subrange(0, i as int),
        decreases data@.len() - i,
    {
        out.push(data[i]);
        proof {
            assert(out@ =~= data@.subrange(0, i + 1));
        }
        i += 1;
    }
    proof {
        assert(out@ =~= data@);
    }
    out
}

/// Contains the in-memory index and the segments it points into: the
/// log-structured engine behind the [`KvsEngine`] contract.
pub struct KvStore {
    index: LogIndex,
}

impl View for KvStore {
    type V = Map<Seq<char>, Seq<char>>;

    closed spec fn view(&self) -> Map<Seq<char>, Seq<char>> {
        self.index@
    }
}

impl KvStore {
    /// The engine's resting invariant.
    pub closed spec fn inv(&self) -> bool {
        self.index.inv()
    }

    /// The views of the engine's segments, ascending by id.
    pub closed spec fn segs(&self) -> Seq<SegmentView> {
        self.index.segs()
    }

    /// True until the first compaction: while it holds, the segments replay
    /// to exactly the live map.
    pub closed spec fn is_clean(&self) -> bool {
        self.index.is_clean()
    }

    /// How many bytes the active segment holds: what the rotation bound is
    /// measured against.
    pub closed spec fn active_size(&self) -> u64 {
        self.index.metadata.size
    }

    /// Wraps an opened, replayed log index as an engine.
    pub fn new(index: LogIndex) -> (r: KvStore)
        ensures
            r@ == index@,
            r.segs() == index.segs(),
            r.is_clean() == index.is_clean(),
            index.inv() ==> r.inv(),
    {
        KvStore { index }
    }

    /// Open the KvStore on a directory image and return the KvStore.
    ///
    /// The directory must list its segments in ascending id order, each a
    /// whole concatenation of records; an empty directory starts a fresh
    /// log.  The index is rebuilt by replay, so the map held equals exactly
    /// what the directory's bytes spell.
    pub fn open(dir: Directory) -> (r: Result<KvStore, KvsError>)
        ensures
            r is Ok <==> (ids_sorted(normalize_dir(seg_views(dir.segments@))) && disk_map(
                normalize_dir(seg_views(dir.segments@)),
            ) is Some),
            r matches Ok(s) ==> {
                &&& s.inv()
                &&& s.wf()
                &&& s.is_clean()
                &&& s.segs() == normalize_dir(seg_views(dir.segments@))
                &&& Some(s@) == disk_map(normalize_dir(seg_views(dir.segments@)))
                &&& s.kv() == s@
                &&& s.active_size() as int == s.segs().last().data.len()
            },
            r matches Err(e) ==> (e == KvsError::LogIndexIDError || e
                == KvsError::SerializationError),
    {
        let li = match LogIndex::new(dir) {
            Ok(li) => li,
            Err(e) => {
                return Err(e);
            },
        };
        match li.replay_log() {
            Ok(li) => Ok(KvStore::new(li)),
            Err(e) => Err(e),
        }
    }

    /// The directory image the engine would leave on disk: a copy of its
    /// segments.  Opening this image again reproduces the live map whenever
    /// the store is clean.
    pub fn export(&self) -> (r: Directory)
        ensures
            seg_views(r.segments@) == self.segs(),
    {
        let mut segments: Vec<Segment> = Vec::new();
        let mut i: usize = 0;
        while i < self.index.segments.len()
            invariant
                i <= self.index.segments@.len(),
                seg_views(segments@) == self.index.segs().subrange(0, i as int),
            decreases self.index.segments@.len() - i,
        {
            let seg = Segment {
                id: self.index.segments[i].id,
                data: clone_bytes(&self.index.segments[i].data),
            };
            proof {
                assert(seg@ == self.index.segs()[i as int]);
            }
            let ghost segs_pre = segments@;
            segments.push(seg);
            proof {
                assert(seg_views(segments@) =~= seg_views(segs_pre).push(self.index.segs()[i as int]));
                assert(seg_views(segments@) =~= self.index.segs().subrange(0, i + 1));
            }
            i += 1;
        }
        proof {
            assert(seg_views(segments@) =~= self.index.segs());
        }
        Directory { segments }
    }
}

impl KvsEngine for KvStore {
    closed spec fn kv(&self) -> Map<Seq<char>, Seq<char>> {
        self.index@
    }

    closed spec fn wf(&self) -> bool {
        self.index.inv()
    }

    fn get(&self, key: String) -> (r: Result<Option<String>, KvsError>) {
        self.index.get_value(key)
    }

    fn set(&mut self, key: String, value: String) -> (r: Result<(), KvsError>)
        ensures
            final(self).inv(),
            // a write that keeps the active segment within the rotation
            // bound appends one record there and leaves a clean store clean
            old(self).active_size() + spec_encode_command(
                CommandView::SetCmd { key: key@, value: value@ },
            ).len() <= LOG_ROTATION_MIN_SIZE_BYTES ==> {
                &&& final(self).is_clean() == old(self).is_clean()
                &&& final(self).segs().len() == old(self).segs().len()
                &&& (forall|j: int|
                    0 <= j < old(self).segs().len() - 1 ==> final(self).segs()[j] == old(
                        self,
                    ).segs()[j])
                &&& final(self).segs().last().id == old(self).segs().last().id
                &&& final(self).segs().last().data == old(self).segs().last().data
                    + spec_encode_command(CommandView::SetCmd { key: key@, value: value@ })
                &&& final(self).active_size() == old(self).active_size() + spec_encode_command(
                    CommandView::SetCmd { key: key@, value: value@ },
                ).len()
            },
    {
        self.index.log_command(Command::SetCmd(SetCmd { key, value }))
    }

    fn remove(&mut self, key: String) -> (r: Result<(), KvsError>)
        ensures
            final(self).inv(),
            !old(self)@.dom().contains(key@) ==> *final(self) == *old(self),
            old(self)@.dom().contains(key@) && old(self).active_size() + spec_encode_command(
                CommandView::Rm { key: key@ },
            ).len() <= LOG_ROTATION_MIN_SIZE_BYTES ==> {
                &&& final(self).is_clean() == old(self).is_clean()
                &&& final(self).segs().len() == old(self).segs().len()
                &&& (forall|j: int|
                    0 <= j < old(self).segs().len() - 1 ==> final(self).segs()[j] == old(
                        self,
                    ).segs()[j])
                &&& final(self).segs().last().id == old(self).segs().last().id
                &&& final(self).segs().last().data == old(self).segs().last().data
                    + spec_encode_command(CommandView::Rm { key: key@ })
                &&& final(self).active_size() == old(self).active_size() + spec_encode_command(
                    CommandView::Rm { key: key@ },
                ).len()
            },
    {
        if self.index.contains_key(&key) {
            self.index.log_command(Command::Rm(Remove { key }))
        } else {
            Err(KvsError::KeyNotFound)
        }
    }
}


/// Whether a byte spells a decimal digit.
pub open spec fn is_digit_byte(b: u8) -> bool {
    48 <= b <= 57
}

/// The number a run of decimal digit bytes spells.
pub open spec fn digits_value(bs: Seq<u8>) -> nat
    decreases bs.len(),
{
    if bs.len() == 0 {
        0
    } else {
        digits_value(bs.drop_last()) * 10 + (if bs.last() >= 48 {
            (bs.last() - 48) as nat
        } else {
            0
        })
    }
}

/// Whether bytes spell a `u64`: nonempty, all digits, and within range.
pub open spec fn spec_parse_u64_ok(bs: Seq<u8>) -> bool {
    &&& bs.len() >= 1
    &&& forall|i: int| 0 <= i < bs.len() ==> is_digit_byte(#[trigger] bs[i])
    &&& digits_value(bs) <= u64::MAX
}

/// A longer run of digits spells at least as large a number.
proof fn lemma_digits_value_monotone(bs: Seq<u8>, i: int, j: int)
    requires
        0 <= i <= j <= bs.len(),
    ensures
        digits_value(bs.subrange(0, i)) <= digits_value(bs.subrange(0, j)),
    decreases j - i,
{
    if i < j {
        lemma_digits_value_monotone(bs, i, j - 1);
        assert(bs.subrange(0, j).drop_last() =~= bs.subrange(0, j - 1));
    }
}

/// Reads one segment file name as its id: the decimal number it spells.
fn parse_log_id(name: &str) -> (r: Result<u64, KvsError>)
    ensures
        r is Ok <==> spec_parse_u64_ok(name.spec_bytes()),
        r matches Ok(v) ==> v == digits_value(name.spec_bytes()),
        r matches Err(e) ==> e == KvsError::LogIndexParseError,
{
    let bs = name.as_bytes();
    if bs.len() == 0 {
        return Err(KvsError::LogIndexParseError);
    }
    let mut acc: u64 = 0;
    let mut i: usize = 0;
    while i < bs.len()
        invariant
            i <= bs@.len(),
            bs@ == name.spec_bytes(),
            forall|j: int| 0 <= j < i ==> is_digit_byte(#[trigger] bs@[j]),
            acc == digits_value(bs@.subrange(0, i as int)),
        decreases bs@.len() - i,
    {
        let b = bs[i];
        if b < 48 || b > 57 {
            return Err(KvsError::LogIndexParseError);
        }
        let d = (b - 48) as u64;
        let next = match acc.checked_mul(10) {
            Some(x) => match x.checked_add(d) {
                Some(y) => y,
                None => {
                    proof {
                        assert(bs@.subrange(0, i + 1).drop_last() =~= bs@.subrange(0, i as int));
                        assert(digits_value(bs@.subrange(0, i + 1)) > u64::MAX);
                        lemma_digits_value_monotone(bs@, i + 1, bs@.len() as int);
                        assert(bs@.subrange(0, bs@.len() as int) =~= bs@);
                    }
                    return Err(KvsError::LogIndexParseError);
                },
            },
            None => {
                proof {
                    assert(bs@.subrange(0, i + 1).drop_last() =~= bs@.subrange(0, i as int));
                    assert(digits_value(bs@.subrange(0, i + 1)) > u64::MAX);
                    lemma_digits_value_monotone(bs@, i + 1, bs@.len() as int);
                    assert(bs@.subrange(0, bs@.len() as int) =~= bs@);
                }
                return Err(KvsError::LogIndexParseError);
            },
        };
        proof {
            assert(bs@.subrange(0, i + 1).drop_last() =~= bs@.subrange(0, i as int));
        }
        acc = next;
        i += 1;
    }
    proof {
        assert(bs@.subrange(0, bs@.len() as int) =~= bs@);
    }
    Ok(acc)
}

/// The id one file name spells.
pub open spec fn spec_name_id(name: Seq<char>) -> u64 {
    digits_value(vstd::utf8::encode_utf8(name)) as u64
}

/// Whether one file name is a well-formed segment id.
pub open spec fn spec_name_ok(name: Seq<char>) -> bool {
    spec_parse_u64_ok(vstd::utf8::encode_utf8(name))
}

/// The ids a list of file names spells, in the names' order.
pub open spec fn name_ids(names: Seq<String>) -> Seq<u64> {
    names.map_values(|n: String| spec_name_id(n@))
}

impl LogIndex {
    /// Reads the segment ids out of a directory's file names: each name a
    /// decimal number, sorted ascending; a directory with no segments yet
    /// gets id `0`.
    pub fn get_file_log_ids(names: &Vec<String>) -> (r: Result<Vec<u64>, KvsError>)
        ensures
            r is Ok <==> forall|i: int| 0 <= i < names@.len() ==> spec_name_ok(
                (#[trigger] names@[i])@,
            ),
            r matches Ok(v) ==> {
                &&& forall|a: int, b: int| 0 <= a < b < v@.len() ==> v@[a] <= v@[b]
                &&& (names@.len() == 0 ==> v@ == seq![0u64])
                &&& (names@.len() > 0 ==> v@.len() == names@.len() && (forall|j: int|
                    0 <= j < names@.len() ==> v@.contains(spec_name_id((#[trigger] names@[j])@)))
                    && (forall|a: int|
                    0 <= a < v@.len() ==> name_ids(names@).contains(#[trigger] v@[a])))
            },
            r matches Err(e) ==> e == KvsError::LogIndexParseError,
    {
        let mut ids: Vec<u64> = Vec::new();
        let ghost mut from: Seq<int> = Seq::empty();
        let mut t: usize = 0;
        while t < names.len()
            invariant
                t <= names@.len(),
                ids@.len() == t,
                from.len() == t,
                forall|a: int|
                    0 <= a < ids@.len() ==> 0 <= #[trigger] from[a] < t && ids@[a] == spec_name_id(
                        names@[from[a]]@,
                    ),
                forall|j: int| 0 <= j < t ==> spec_name_ok((#[trigger] names@[j])@),
                forall|a: int, b: int| 0 <= a < b < ids@.len() ==> ids@[a] <= ids@[b],
                forall|j: int|
                    0 <= j < t ==> ids@.contains(spec_name_id((#[trigger] names@[j])@)),
            decreases names@.len() - t,
        {
            let id = match parse_log_id(names[t].as_str()) {
                Ok(id) => id,
                Err(e) => {
                    return Err(e);
                },
            };
            let mut pos: usize = 0;
            while pos < ids.len() && ids[pos] <= id
                invariant
                    pos <= ids@.len(),
                    forall|a: int| 0 <= a < pos ==> ids@[a] <= id,
                    forall|a: int, b: int| 0 <= a < b < ids@.len() ==> ids@[a] <= ids@[b],
                decreases ids@.len() - pos,
            {
                pos += 1;
            }
            let ghost ids0 = ids@;
            let ghost from0 = from;
            ids.insert(pos, id);
            proof {
                from = from0.insert(pos as int, t as int);
                assert forall|a: int| 0 <= a < ids0.len() + 1 implies 0 <= #[trigger] from[a] < t + 1
                    && ids0.insert(pos as int, id)[a] == spec_name_id(names@[from[a]]@) by {
                    if a < pos {
                        assert(from[a] == from0[a]);
                        assert(ids0.insert(pos as int, id)[a] == ids0[a]);
                    } else if a == pos {
                        assert(from[a] == t as int);
                        assert(ids0.insert(pos as int, id)[a] == id);
                    } else {
                        assert(from[a] == from0[a - 1]);
                        assert(ids0.insert(pos as int, id)[a] == ids0[a - 1]);
                    }
                }
                assert(ids@ =~= ids0.subrange(0, pos as int) + seq![id] + ids0.subrange(
                    pos as int,
                    ids0.len() as int,
                ));
                assert forall|a: int, b: int|
                    0 <= a < b < ids@.len() implies ids@[a] <= ids@[b] by {
                    let a0: int = if a < pos {
                        a
                    } else {
                        a - 1
                    };
                    let b0: int = if b < pos {
                        b
                    } else {
                        b - 1
                    };
                    if a == pos {
                        assert(ids@[a] == id);
                        assert(ids@[b] == ids0[b0]);
                        assert(pos < ids0.len() ==> id < ids0[pos as int]);
                        assert(ids0[pos as int] <= ids0[b0]);
                    } else if b == pos {
                        assert(ids@[b] == id);
                        assert(ids@[a] == ids0[a0]);
                    } else if a < pos && b < pos {
                        assert(ids@[a] == ids0[a] && ids@[b] == ids0[b]);
                    } else if a < pos {
                        assert(ids@[a] == ids0[a] && ids@[b] == ids0[b0]);
                        if ids0[a] > ids0[b0] {
                            assert(b0 >= pos);
                            assert(ids0[a] <= id);
                        }
                    } else {
                        assert(ids@[a] == ids0[a0] && ids@[b] == ids0[b0]);
                    }
                }
                assert forall|j: int| 0 <= j < t + 1 implies ids@.contains(
                    spec_name_id((#[trigger] names@[j])@),
                ) by {
                    if j < t {
                        let w = choose|w: int|
                            0 <= w < ids0.len() && ids0[w] == spec_name_id(names@[j]@);
                        if w < pos {
                            assert(ids@[w] == ids0[w]);
                        } else {
                            assert(ids@[w + 1] == ids0[w]);
                        }
                    } else {
                        assert(ids@[pos as int] == id);
                        assert(id == spec_name_id(names@[j]@));
                    }
                }
            }
            t += 1;
        }
        if ids.len() == 0 {
            ids.push(0);
            proof {
                assert(ids@ =~= seq![0u64]);
            }
        }
        proof {
            if names@.len() > 0 {
                assert forall|a: int| 0 <= a < ids@.len() implies name_ids(names@).contains(
                    #[trigger] ids@[a],
                ) by {
                    let j = from[a];
                    assert(name_ids(names@)[j] == ids@[a]);
                }
            }
        }
        Ok(ids)
    }
}

/// The engine contract speaks of the store `open` built: the trait's map
/// and soundness condition are the view and invariant of [`KvStore`].
pub proof fn lemma_engine_interface(s: &KvStore)
    ensures
        s.wf() == s.inv(),
        s.kv() == s@,
{
}

/// Whatever has run — rotation and compaction included — the segments stay
/// a whole, ascending log: together with the contract of [`KvStore::open`],
/// opening what [`KvStore::export`] returns always succeeds.
pub proof fn lemma_reopen_succeeds(s: &KvStore)
    requires
        s.inv(),
    ensures
        normalize_dir(s.segs()) == s.segs(),
        ids_sorted(s.segs()),
        disk_map(s.segs()) is Some,
{
    lemma_disk_map_some(s.segs(), 0, Map::empty());
}

/// After a clean run — no compaction since the store was opened — the
/// segments on disk replay to exactly the live map: together with the
/// contract of [`KvStore::open`], opening what [`KvStore::export`] returns
/// reproduces the state as it stood.
pub proof fn lemma_clean_reopen(s: &KvStore)
    requires
        s.inv(),
        s.is_clean(),
    ensures
        normalize_dir(s.segs()) == s.segs(),
        ids_sorted(s.segs()),
        disk_map(s.segs()) == Some(s@),
{
}

/// What a run of log records leaves in a map.
pub open spec fn write_map(
    m: Map<Seq<char>, Seq<char>>,
    ops: Seq<CommandView>,
) -> Map<Seq<char>, Seq<char>>
    decreases ops.len(),
{
    if ops.len() == 0 {
        m
    } else {
        let m2 = write_map(m, ops.drop_last());
        match ops.last() {
            CommandView::SetCmd { key, value } => m2.insert(key, value),
            CommandView::Rm { key } => m2.remove(key),
            CommandView::Get { .. } => m2,
        }
    }
}

/// The most recent `Set` wins: after any run of operations whose last
/// write to `k` is `Set(k, v)`, the store reads `k` as `v`.
pub proof fn lemma_last_set_wins(
    m: Map<Seq<char>, Seq<char>>,
    ops: Seq<CommandView>,
    i: int,
    k: Seq<char>,
    v: Seq<char>,
)
    requires
        0 <= i < ops.len(),
        ops[i] == (CommandView::SetCmd { key: k, value: v }),
        forall|j: int| i < j < ops.len() ==> (#[trigger] ops[j]).key() != k,
    ensures
        write_map(m, ops).dom().contains(k),
        write_map(m, ops)[k] == v,
    decreases ops.len(),
{
    if i == ops.len() - 1 {
        assert(ops.drop_last() =~= ops.subrange(0, ops.len() - 1));
    } else {
        lemma_last_set_wins(m, ops.drop_last(), i, k, v);
        assert(ops.drop_last()[i] == ops[i]);
        assert((ops[ops.len() - 1]).key() != k);
    }
}

/// Writes to distinct keys commute: whatever order concurrent writers'
/// operations are serialized in, the map they leave is the same.
pub proof fn lemma_distinct_writes_commute(
    m: Map<Seq<char>, Seq<char>>,
    k1: Seq<char>,
    v1: Seq<char>,
    k2: Seq<char>,
    v2: Seq<char>,
)
    requires
        k1 != k2,
    ensures
        m.insert(k1, v1).insert(k2, v2) == m.insert(k2, v2).insert(k1, v1),
{
    assert(m.insert(k1, v1).insert(k2, v2) =~= m.insert(k2, v2).insert(k1, v1));
}

/// A removed key stays unreadable: after any run of operations whose last
/// write to `k` is `Rm(k)`, the store does not hold `k`.
pub proof fn lemma_remove_wins(
    m: Map<Seq<char>, Seq<char>>,
    ops: Seq<CommandView>,
    i: int,
    k: Seq<char>,
)
    requires
        0 <= i < ops.len(),
        ops[i] == (CommandView::Rm { key: k }),
        forall|j: int| i < j < ops.len() ==> (#[trigger] ops[j]).key() != k,
    ensures
        !write_map(m, ops).dom().contains(k),
    decreases ops.len(),
{
    if i == ops.len() - 1 {
    } else {
        lemma_remove_wins(m, ops.drop_last(), i, k);
        assert(ops.drop_last()[i] == ops[i]);
        assert((ops[ops.len() - 1]).key() != k);
    }
}

} // verus!
